//! What the library promises across its functions, proved over the
//! specifications that their contracts use.
use vstd::prelude::*;

use crate::error::{carries_status_code, error_message, locates_no_manifest, Error};
use crate::layer::{advertised_value, all_visible_ascii, readable_values};
use crate::link::{
    encode_byte, encode_bytes, extract_spec, first_rel, header_for, hex_digit, jumbf_chars,
    link_of_value, link_suffix, links_in_field, links_in_pieces, locate_all_spec, must_encode,
    names_manifest_relation, needs_encoding, param_spec, params_of, parse_link_value_spec,
    rel_chars, rel_key, relation_token_at, scan_start, scan_step, split_from, split_jumbf_spec,
    split_unquoted_spec, unescape, unquote_spec, LinkView, ScanState,
};
use crate::text::{
    ascii_lower, eq_ignore_ascii_case, first_index, is_ascii_space, is_white_space,
    lemma_first_index,
    lemma_first_index_at, lemma_first_index_none,
    ascii_text, lemma_ascii_bytes_ascii_chars, lemma_ascii_char, lemma_utf8_of_ascii, lower_all, trim,
    trim_end, trim_start, utf8_bytes,
};

verus! {

/// Whether `c` may stand literally in a URI reference: an ASCII character
/// whose byte is not one that must be percent-encoded.
pub open spec fn uri_safe(c: char) -> bool {
    (c as u32) < 0x80 && !must_encode(c as u8)
}

/// Every character of a percent-encoding may stand literally in a URI.
proof fn lemma_encode_byte_safe(b: u8)
    ensures
        forall|i: int| 0 <= i < encode_byte(b).len() ==> uri_safe(#[trigger] encode_byte(b)[i]),
{
    if must_encode(b) {
        assert(hex_digit(b / 16) as u32 == (if b / 16 < 10 { b / 16 + 48 } else { b / 16 + 55 }));
        assert(hex_digit(b % 16) as u32 == (if b % 16 < 10 { b % 16 + 48 } else { b % 16 + 55 }));
    } else {
        assert((b as char) as u32 == b);
    }
}

/// The percent-encoding of any bytes consists of characters that may stand
/// literally in a URI: no control character, space, quote, angle bracket or
/// non-ASCII character survives encoding.
pub proof fn law_encoding_is_uri_safe(bytes: Seq<u8>)
    ensures
        forall|i: int|
            0 <= i < encode_bytes(bytes).len() ==> uri_safe(#[trigger] encode_bytes(bytes)[i]),
    decreases bytes.len(),
{
    if bytes.len() > 0 {
        law_encoding_is_uri_safe(bytes.drop_last());
        lemma_encode_byte_safe(bytes.last());
        let a = encode_bytes(bytes.drop_last());
        let b = encode_byte(bytes.last());
        assert forall|i: int| 0 <= i < (a + b).len() implies uri_safe(#[trigger] (a + b)[i]) by {
            if i < a.len() {
                assert((a + b)[i] == a[i]);
            } else {
                assert((a + b)[i] == b[i - a.len()]);
            }
        }
    }
}


/// Encoding bytes none of which must be encoded writes each byte as the
/// character with the same code.
proof fn lemma_encode_unchanged(bytes: Seq<u8>)
    requires
        !needs_encoding(bytes),
    ensures
        encode_bytes(bytes) == bytes.map_values(|b: u8| b as char),
    decreases bytes.len(),
{
    if bytes.len() > 0 {
        let init = bytes.drop_last();
        assert(!needs_encoding(init)) by {
            assert forall|i: int| 0 <= i < init.len() implies !must_encode(init[i]) by {
                assert(init[i] == bytes[i]);
            }
        }
        lemma_encode_unchanged(init);
        assert(!must_encode(bytes[bytes.len() - 1]));
        assert(bytes.map_values(|b: u8| b as char) =~= init.map_values(|b: u8| b as char)
            + seq![bytes.last() as char]);
    }
}

/// Encoding leaves a target that needs no encoding unchanged: every delimiter
/// a URI uses (`? # / : @ & = +`, the sub-delimiters and `%`) survives.
pub proof fn law_encoding_keeps_valid_uri(s: &str)
    requires
        !needs_encoding(utf8_bytes(s)),
    ensures
        encode_bytes(utf8_bytes(s)) == s@,
{
    let bytes = utf8_bytes(s);
    assert forall|i: int| 0 <= i < bytes.len() implies #[trigger] bytes[i] < 0x80 by {
        assert(!must_encode(bytes[i]));
    }
    lemma_ascii_bytes_ascii_chars(s@);
    lemma_utf8_of_ascii(s@);
    lemma_encode_unchanged(bytes);
    assert forall|i: int| 0 <= i < s@.len() implies ((s@[i] as u8) as char) == s@[i] by {
        assert(s@[i] as u32 <= 0x7f);
    }
    assert(encode_bytes(bytes) =~= s@);
}

/// Percent-encoding is idempotent: `%` is left alone, so an encoded target
/// is not encoded a second time (`%20` does not become `%2520`).
pub proof fn law_encoding_idempotent(bytes: Seq<u8>)
    ensures
        encode_bytes(vstd::utf8::encode_utf8(encode_bytes(bytes))) == encode_bytes(bytes),
{
    let e = encode_bytes(bytes);
    law_encoding_is_uri_safe(bytes);
    assert(vstd::utf8::is_ascii_chars(e)) by {
        assert forall|i: int| 0 <= i < e.len() implies '\0' <= #[trigger] e[i] <= '\u{7f}' by {
            assert(uri_safe(e[i]));
            lemma_ascii_char(e[i]);
        }
    }
    lemma_utf8_of_ascii(e);
    let again = vstd::utf8::encode_utf8(e);
    assert(!needs_encoding(again)) by {
        assert forall|i: int| 0 <= i < again.len() implies !must_encode(again[i]) by {
            assert(uri_safe(e[i]));
            assert(again[i] == e[i] as u8);
        }
    }
    lemma_encode_unchanged(again);
    assert forall|i: int| 0 <= i < e.len() implies ((e[i] as u8) as char) == e[i] by {
        assert(uri_safe(e[i]));
    }
    assert(encode_bytes(again) =~= e);
}


/// A character that may stand literally in a URI is none of the characters
/// that the scanner treats specially, and is not whitespace.
proof fn lemma_safe_char(c: char)
    requires
        uri_safe(c),
    ensures
        c != '"',
        c != '<',
        c != '>',
        c != '\\',
        c != '\r',
        c != '\n',
        0x21 <= (c as u32) < 0x7F,
        !is_white_space(c),
{
    assert((c as u8) as u32 == c as u32);
}

/// A sequence whose first and last characters are not whitespace is its own
/// trimmed form.
proof fn lemma_trim_unchanged(s: Seq<char>)
    requires
        s.len() > 0,
        !is_white_space(s[0]),
        !is_white_space(s.last()),
    ensures
        trim(s) == s,
{
    assert(trim_start(s) == s);
    assert(trim_end(s) == s);
}

/// The scanner state inside a `<target>`.
spec fn angle_state() -> ScanState {
    ScanState { angle: true, quote: false, escaped: false }
}

/// Inside a `<target>`, characters that may stand literally in a URI never
/// split the value and never change the scanner's state.
proof fn lemma_split_safe_in_angle(t: Seq<char>, rest: Seq<char>, sep: char, cur: Seq<char>)
    requires
        forall|i: int| 0 <= i < t.len() ==> uri_safe(#[trigger] t[i]),
    ensures
        split_from(t + rest, sep, angle_state(), cur) == split_from(
            rest,
            sep,
            angle_state(),
            cur + t,
        ),
    decreases t.len(),
{
    if t.len() == 0 {
        assert(t + rest =~= rest);
        assert(cur + t =~= cur);
    } else {
        lemma_safe_char(t[0]);
        let tail = t.drop_first();
        assert forall|i: int| 0 <= i < tail.len() implies uri_safe(#[trigger] tail[i]) by {
            assert(tail[i] == t[i + 1]);
        }
        lemma_split_safe_in_angle(tail, rest, sep, cur.push(t[0]));
        assert((t + rest).drop_first() =~= tail + rest);
        assert((t + rest)[0] == t[0]);
        assert(cur.push(t[0]) + tail =~= cur + t);
    }
}

/// Where `sep` does not occur, nothing is split off: the remainder joins the
/// current piece.
proof fn lemma_split_without_sep(s: Seq<char>, sep: char, st: ScanState, cur: Seq<char>)
    requires
        forall|i: int| 0 <= i < s.len() ==> s[i] != sep,
    ensures
        split_from(s, sep, st, cur) == seq![cur + s],
    decreases s.len(),
{
    if s.len() == 0 {
        assert(cur + s =~= cur);
    } else {
        let (next, split) = scan_step(st, s[0], sep);
        assert(!split);
        let tail = s.drop_first();
        assert forall|i: int| 0 <= i < tail.len() implies tail[i] != sep by {
            assert(tail[i] == s[i + 1]);
        }
        lemma_split_without_sep(tail, sep, next, cur.push(s[0]));
        assert(cur.push(s[0]) + tail =~= cur + s);
    }
}

/// A value without backslashes needs no unescaping.
proof fn lemma_unescape_plain(s: Seq<char>)
    requires
        forall|i: int| 0 <= i < s.len() ==> s[i] != '\\',
    ensures
        unescape(s) == s,
    decreases s.len(),
{
    if s.len() > 0 {
        let tail = s.skip(1);
        assert forall|i: int| 0 <= i < tail.len() implies tail[i] != '\\' by {
            assert(tail[i] == s[i + 1]);
        }
        lemma_unescape_plain(tail);
        assert(seq![s[0]] + tail =~= s);
    }
}

/// The parameters after the target in a header that `format` builds are the
/// single parameter `rel="c2pa-manifest"`.
proof fn lemma_suffix_params()
    ensures
        params_of(split_unquoted_spec(link_suffix().skip(1), ';')) == seq![
            (rel_key(), rel_chars()),
        ],
{
    let p = link_suffix().skip(1);
    assert(p =~= seq![
        ';', ' ', 'r', 'e', 'l', '=', '"', 'c', '2', 'p', 'a', '-', 'm', 'a', 'n', 'i', 'f', 'e',
        's', 't', '"',
    ]);
    let w = p.drop_first();
    assert forall|i: int| 0 <= i < w.len() implies w[i] != ';' by {
        assert(w[i] == p[i + 1]);
    }
    let (next, split) = scan_step(scan_start(), ';', ';');
    assert(split && next == scan_start());
    lemma_split_without_sep(w, ';', scan_start(), seq![]);
    assert(seq![] + w =~= w);
    let pieces = split_unquoted_spec(p, ';');
    assert(pieces == seq![Seq::<char>::empty(), w]);
    // The empty piece contributes nothing.
    assert(pieces.drop_last() =~= seq![Seq::<char>::empty()]);
    let empty_only = seq![Seq::<char>::empty()];
    assert(empty_only.drop_last() =~= Seq::<Seq<char>>::empty());
    assert(trim_start(Seq::<char>::empty()) == Seq::<char>::empty());
    assert(trim(Seq::<char>::empty()) == Seq::<char>::empty());
    assert(empty_only.last() == Seq::<char>::empty());
    assert(params_of(Seq::<Seq<char>>::empty()) == Seq::<(Seq<char>, Seq<char>)>::empty());
    assert(params_of(empty_only) == Seq::<(Seq<char>, Seq<char>)>::empty());
    // The second piece is ` rel="c2pa-manifest"`.
    let q = w.drop_first();
    assert(w[0] == ' ');
    assert(trim_start(w) == trim_start(q));
    lemma_trim_unchanged(q);
    assert(trim_start(q) == q);
    assert(trim(w) == q);
    // Its name is `rel`.
    assert(q[3] == '=');
    lemma_first_index_at(q, '=', 3);
    let name = q.take(3);
    lemma_trim_unchanged(name);
    assert(lower_all(name) =~= rel_key());
    // Its value is `"c2pa-manifest"`, unquoted.
    let value = q.skip(4);
    lemma_trim_unchanged(value);
    assert(value.subrange(1, value.len() - 1) =~= rel_chars());
    lemma_unescape_plain(rel_chars());
    assert(unquote_spec(value) == rel_chars());
    assert(param_spec(q) == (rel_key(), rel_chars()));
    assert(pieces.last() == w);
}

/// A header value built around a target made of characters that may stand
/// literally in a URI parses back to exactly one `c2pa-manifest` link, whose
/// target is that target with its JUMBF fragment separated out.
proof fn lemma_header_parses_back(t: Seq<char>)
    requires
        t.len() > 0,
        forall|i: int| 0 <= i < t.len() ==> uri_safe(#[trigger] t[i]),
    ensures
        links_in_field(header_for(t)) == seq![split_jumbf_spec(t)],
{
    let h = header_for(t);
    let suffix = link_suffix();
    assert(suffix =~= seq![
        '>', ';', ' ', 'r', 'e', 'l', '=', '"', 'c', '2', 'p', 'a', '-', 'm', 'a', 'n', 'i', 'f',
        'e', 's', 't', '"',
    ]);
    // Splitting on commas leaves the value whole.
    assert(h.drop_first() =~= t + suffix);
    assert(h[0] == '<');
    lemma_split_safe_in_angle(t, suffix, ',', seq!['<']);
    assert forall|i: int| 0 <= i < suffix.len() implies suffix[i] != ',' by {}
    lemma_split_without_sep(suffix, ',', angle_state(), seq!['<'] + t);
    assert(seq!['<'] + t + suffix =~= h);
    assert(split_unquoted_spec(h, ',') == seq![h]);
    // The target runs from the first `<` to the first `>` after it.
    lemma_safe_char(t[0]);
    lemma_safe_char(t.last());
    lemma_trim_unchanged(h);
    lemma_first_index_at(h, '<', 0);
    let after = h.skip(1);
    assert(after =~= t + suffix);
    assert forall|j: int| 0 <= j < t.len() implies after[j] != '>' by {
        lemma_safe_char(t[j]);
    }
    lemma_first_index_at(after, '>', t.len() as int);
    let close: int = 1 + t.len() as int;
    assert(h.subrange(1, close) =~= t);
    lemma_trim_unchanged(t);
    assert(h.skip(close + 1) =~= suffix.skip(1));
    lemma_suffix_params();
    assert(parse_link_value_spec(h) == Some((t, seq![(rel_key(), rel_chars())])));
    // The first (and only) `rel` parameter names the manifest relation.
    let ps = seq![(rel_key(), rel_chars())];
    assert(first_rel(ps) == Some(rel_chars()));
    assert(rel_chars().subrange(0, 13) =~= rel_chars());
    assert(relation_token_at(rel_chars(), 0));
    assert(names_manifest_relation(rel_chars()));
    assert(link_of_value(h) == Some(split_jumbf_spec(t)));
    let pieces = seq![h];
    assert(pieces.drop_last() =~= Seq::<Seq<char>>::empty());
    assert(pieces.last() == h);
    assert(links_in_pieces(Seq::<Seq<char>>::empty()) == Seq::<LinkView>::empty());
    assert(links_in_pieces(pieces) =~= seq![split_jumbf_spec(t)]);
}


/// The encoding of a non-empty target is not empty.
proof fn lemma_encoding_nonempty(uri: &str)
    requires
        uri@.len() > 0,
    ensures
        encode_bytes(utf8_bytes(uri)).len() > 0,
{
    let cs = uri@;
    vstd::utf8::char_is_scalar(cs[0]);
    assert(vstd::utf8::encode_utf8(cs) == vstd::utf8::encode_scalar(cs[0] as u32)
        + vstd::utf8::encode_utf8(cs.drop_first()));
    let bytes = utf8_bytes(uri);
    assert(bytes.len() > 0);
    assert(encode_byte(bytes.last()).len() > 0);
}

/// What `format` builds, `extract` reads back: for any non-empty target the
/// header value yields exactly one `c2pa-manifest` link, whose URI is the
/// percent-encoded target (with any JUMBF childlabel dropped), and extracting
/// from it succeeds with that link.
pub proof fn law_format_round_trip(uri: &str)
    requires
        uri@.len() > 0,
    ensures
        locate_all_spec(seq![header_for(encode_bytes(utf8_bytes(uri)))]) == seq![
            split_jumbf_spec(encode_bytes(utf8_bytes(uri))),
        ],
        extract_spec(locate_all_spec(seq![header_for(encode_bytes(utf8_bytes(uri)))])) == Ok::<
            LinkView,
            Error,
        >(split_jumbf_spec(encode_bytes(utf8_bytes(uri)))),
{
    let t = encode_bytes(utf8_bytes(uri));
    lemma_encoding_nonempty(uri);
    law_encoding_is_uri_safe(utf8_bytes(uri));
    lemma_header_parses_back(t);
    let values = seq![header_for(t)];
    assert(values.drop_last() =~= Seq::<Seq<char>>::empty());
    assert(locate_all_spec(Seq::<Seq<char>>::empty()) == Seq::<LinkView>::empty());
    assert(locate_all_spec(values) =~= seq![split_jumbf_spec(t)]);
}

/// Header injection is impossible: a header value that `format` builds holds
/// no line break, and exactly one `<` and one `>`, which open and close the
/// target, so nothing can end the field or the target early.
pub proof fn law_format_cannot_inject(uri: &str)
    ensures
        forall|i: int|
            0 <= i < header_for(encode_bytes(utf8_bytes(uri))).len() ==> {
                let c = #[trigger] header_for(encode_bytes(utf8_bytes(uri)))[i];
                &&& c != '\r'
                &&& c != '\n'
                &&& c == '<' <==> i == 0
                &&& c == '>' <==> i == encode_bytes(utf8_bytes(uri)).len() + 1
            },
{
    let t = encode_bytes(utf8_bytes(uri));
    let h = header_for(t);
    law_encoding_is_uri_safe(utf8_bytes(uri));
    let suffix = link_suffix();
    assert(suffix =~= seq![
        '>', ';', ' ', 'r', 'e', 'l', '=', '"', 'c', '2', 'p', 'a', '-', 'm', 'a', 'n', 'i', 'f',
        'e', 's', 't', '"',
    ]);
    assert forall|i: int| 0 <= i < h.len() implies {
        let c = #[trigger] h[i];
        &&& c != '\r'
        &&& c != '\n'
        &&& c == '<' <==> i == 0
        &&& c == '>' <==> i == t.len() + 1
    } by {
        if 1 <= i <= t.len() {
            assert(h[i] == t[i - 1]);
            lemma_safe_char(t[i - 1]);
        } else if i > t.len() {
            assert(h[i] == suffix[i - t.len() - 1]);
        }
    }
}

/// `format_strict` and `format` agree wherever the strict one succeeds: a
/// target that needs no encoding is written as it is by both.
pub proof fn law_strict_agrees_with_lenient(uri: &str)
    requires
        !needs_encoding(utf8_bytes(uri)),
    ensures
        header_for(uri@) == header_for(encode_bytes(utf8_bytes(uri))),
{
    law_encoding_keeps_valid_uri(uri);
}

/// Searching several `Link` fields finds the links of each field, in order:
/// the links of the fields `a` followed by `b` are those of `a` followed by
/// those of `b`.
pub proof fn law_locate_all_concatenates(a: Seq<Seq<char>>, b: Seq<Seq<char>>)
    ensures
        locate_all_spec(a + b) == locate_all_spec(a) + locate_all_spec(b),
    decreases b.len(),
{
    if b.len() == 0 {
        assert(a + b =~= a);
        assert(locate_all_spec(a) + locate_all_spec(b) =~= locate_all_spec(a));
    } else {
        law_locate_all_concatenates(a, b.drop_last());
        assert((a + b).drop_last() =~= a + b.drop_last());
        assert((a + b).last() == b.last());
        assert(locate_all_spec(a + b) =~= locate_all_spec(a) + locate_all_spec(b));
    }
}


/// Every byte of a header value that `format` builds is visible ASCII, so it
/// is always a valid HTTP header value.
pub proof fn law_header_is_visible_ascii(uri: &str)
    ensures
        vstd::utf8::is_ascii_chars(header_for(encode_bytes(utf8_bytes(uri)))),
        forall|i: int|
            0 <= i < vstd::utf8::encode_utf8(header_for(encode_bytes(utf8_bytes(uri)))).len() ==> {
                let b = #[trigger] vstd::utf8::encode_utf8(
                    header_for(encode_bytes(utf8_bytes(uri))),
                )[i];
                (b >= 32 && b < 127)
            },
{
    let t = encode_bytes(utf8_bytes(uri));
    law_encoding_is_uri_safe(utf8_bytes(uri));
    lemma_header_visible(t);
}

/// A header value around a target made of characters that may stand
/// literally in a URI is visible ASCII.
proof fn lemma_header_visible(t: Seq<char>)
    requires
        forall|i: int| 0 <= i < t.len() ==> uri_safe(#[trigger] t[i]),
    ensures
        vstd::utf8::is_ascii_chars(header_for(t)),
        forall|i: int|
            0 <= i < vstd::utf8::encode_utf8(header_for(t)).len() ==> {
                let b = #[trigger] vstd::utf8::encode_utf8(header_for(t))[i];
                (b >= 32 && b < 127)
            },
{
    let h = header_for(t);
    let suffix = link_suffix();
    assert(suffix =~= seq![
        '>', ';', ' ', 'r', 'e', 'l', '=', '"', 'c', '2', 'p', 'a', '-', 'm', 'a', 'n', 'i', 'f',
        'e', 's', 't', '"',
    ]);
    assert forall|i: int| 0 <= i < h.len() implies 32 <= (#[trigger] h[i] as u32) < 127 by {
        if 1 <= i <= t.len() {
            assert(h[i] == t[i - 1]);
            lemma_safe_char(t[i - 1]);
        } else if i > t.len() {
            assert(h[i] == suffix[i - t.len() - 1]);
        }
    }
    assert forall|i: int| 0 <= i < h.len() implies '\0' <= #[trigger] h[i] <= '\u{7f}' by {
        assert(32 <= (h[i] as u32) < 127);
        lemma_ascii_char(h[i]);
    }
    lemma_utf8_of_ascii(h);
    assert forall|i: int| 0 <= i < vstd::utf8::encode_utf8(h).len() implies {
        let b = #[trigger] vstd::utf8::encode_utf8(h)[i];
        (b >= 32 && b < 127)
    } by {
        assert(32 <= (h[i] as u32) < 127);
        assert(vstd::utf8::encode_utf8(h)[i] == h[i] as u8);
    }
}


/// A link appended to a header map is found after the links already there:
/// every `Link` field that was present survives and is searched first, and
/// when none of them advertised a manifest, extracting yields exactly the
/// appended link, with the target percent-encoded.
pub proof fn law_appended_link_is_found(before: Seq<Seq<u8>>, uri: &str)
    requires
        uri@.len() > 0,
    ensures
        locate_all_spec(readable_values(before.push(advertised_value(uri)))) == locate_all_spec(
            readable_values(before),
        ).push(split_jumbf_spec(encode_bytes(utf8_bytes(uri)))),
        locate_all_spec(readable_values(before)).len() == 0 ==> extract_spec(
            locate_all_spec(readable_values(before.push(advertised_value(uri)))),
        ) == Ok::<LinkView, Error>(split_jumbf_spec(encode_bytes(utf8_bytes(uri)))),
{
    let t = encode_bytes(utf8_bytes(uri));
    let h = header_for(t);
    let v = advertised_value(uri);
    lemma_encoding_nonempty(uri);
    law_encoding_is_uri_safe(utf8_bytes(uri));
    lemma_header_visible(t);
    lemma_utf8_of_ascii(h);
    assert(all_visible_ascii(v));
    assert forall|i: int| 0 <= i < h.len() implies ((h[i] as u8) as char) == h[i] by {
        assert('\0' <= h[i] <= '\u{7f}');
    }
    assert(ascii_text(v) =~= h);
    let all = before.push(v);
    assert(all.drop_last() =~= before);
    assert(readable_values(all) == readable_values(before).push(h));
    lemma_header_parses_back(t);
    let r = readable_values(before);
    assert(r.push(h).drop_last() =~= r);
    assert(locate_all_spec(r.push(h)) == locate_all_spec(r) + links_in_field(h));
    assert(locate_all_spec(r.push(h)) =~= locate_all_spec(r).push(split_jumbf_spec(t)));
}

/// An error either carries the registered status code `manifest.inaccessible`
/// or means that no manifest was located, never both: only
/// `Error::Inaccessible` carries a code.
pub proof fn law_status_code_or_no_manifest(e: Error)
    ensures
        carries_status_code(e) <==> !locates_no_manifest(e),
{
}

/// Every error message is a sentence fragment that composes into a longer
/// message: it is not empty, starts with a lower-case letter, and does not end
/// with a period (for a malformed value, provided that its reason does not).
pub proof fn law_messages_compose(e: Error)
    ensures
        error_message(e).len() > 0,
        'a' <= error_message(e)[0] <= 'z',
        (match e {
            Error::Malformed(why) => why@.len() == 0 || why@.last() != '.',
            _ => true,
        }) ==> error_message(e).last() != '.',
{
    reveal_strlit("no c2pa-manifest Link header found");
    reveal_strlit("more than one c2pa-manifest target was advertised");
    reveal_strlit("malformed Link header: ");
    reveal_strlit("the advertised manifest could not be retrieved");
    match e {
        Error::Malformed(why) => {
            let m = "malformed Link header: "@ + why@;
            assert(m[0] == 'm');
            if why@.len() > 0 {
                assert(m.last() == why@.last());
            } else {
                assert(m.last() == ' ');
            }
        },
        _ => {},
    }
}


/// Percent-encoding works byte by byte, so it distributes over
/// concatenation: the encoding of `a` followed by `b` is the encoding of `a`
/// followed by the encoding of `b`.
pub proof fn law_encoding_distributes(a: Seq<u8>, b: Seq<u8>)
    ensures
        encode_bytes(a + b) == encode_bytes(a) + encode_bytes(b),
    decreases b.len(),
{
    if b.len() == 0 {
        assert(a + b =~= a);
        assert(encode_bytes(a) + encode_bytes(b) =~= encode_bytes(a));
    } else {
        law_encoding_distributes(a, b.drop_last());
        assert((a + b).drop_last() =~= a + b.drop_last());
        assert((a + b).last() == b.last());
        assert(encode_bytes(a + b) =~= encode_bytes(a) + encode_bytes(b));
    }
}

/// The UTF-8 encoding of a concatenation is the concatenation of the
/// encodings.
proof fn lemma_utf8_concat(a: Seq<char>, b: Seq<char>)
    ensures
        vstd::utf8::encode_utf8(a + b) == vstd::utf8::encode_utf8(a) + vstd::utf8::encode_utf8(b),
    decreases a.len(),
{
    if a.len() == 0 {
        assert(a + b =~= b);
        assert(vstd::utf8::encode_utf8(a) =~= Seq::<u8>::empty());
        assert(Seq::<u8>::empty() + vstd::utf8::encode_utf8(b) =~= vstd::utf8::encode_utf8(b));
    } else {
        lemma_utf8_concat(a.drop_first(), b);
        assert((a + b).drop_first() =~= a.drop_first() + b);
        assert((a + b)[0] == a[0]);
        assert(vstd::utf8::encode_utf8(a + b) =~= vstd::utf8::encode_utf8(a)
            + vstd::utf8::encode_utf8(b));
    }
}

/// `encode_target` of a string that is `a` followed by `b` is
/// `encode_target(a)` followed by `encode_target(b)`.
pub proof fn law_encode_target_distributes(a: &str, b: &str, ab: &str)
    requires
        ab@ == a@ + b@,
    ensures
        encode_bytes(utf8_bytes(ab)) == encode_bytes(utf8_bytes(a)) + encode_bytes(utf8_bytes(b)),
{
    lemma_utf8_concat(a@, b@);
    law_encoding_distributes(utf8_bytes(a), utf8_bytes(b));
}

/// The pieces joined again with the separator between them.
pub open spec fn join_pieces(pieces: Seq<Seq<char>>, sep: char) -> Seq<char>
    decreases pieces.len(),
{
    if pieces.len() == 0 {
        seq![]
    } else if pieces.len() == 1 {
        pieces[0]
    } else {
        pieces[0] + seq![sep] + join_pieces(pieces.drop_first(), sep)
    }
}

/// Scanning always yields at least one piece, and the pieces joined with the
/// separator are the collected piece followed by the rest of the input.
proof fn lemma_split_from_joins(s: Seq<char>, sep: char, st: ScanState, cur: Seq<char>)
    ensures
        split_from(s, sep, st, cur).len() >= 1,
        split_from(s, sep, st, cur)[0].len() >= cur.len(),
        join_pieces(split_from(s, sep, st, cur), sep) == cur + s,
    decreases s.len(),
{
    if s.len() == 0 {
        assert(cur + s =~= cur);
    } else {
        let (next, split) = scan_step(st, s[0], sep);
        let rest = s.drop_first();
        if split {
            assert(s[0] == sep);
            lemma_split_from_joins(rest, sep, next, seq![]);
            let tail = split_from(rest, sep, next, seq![]);
            let all = seq![cur] + tail;
            assert(all.drop_first() =~= tail);
            assert(all[0] == cur);
            assert(join_pieces(all, sep) == cur + seq![sep] + join_pieces(tail, sep));
            assert(seq![] + rest =~= rest);
            assert(cur + seq![sep] + rest =~= cur + s);
        } else {
            lemma_split_from_joins(rest, sep, next, cur.push(s[0]));
            assert(cur.push(s[0]) + rest =~= cur + s);
        }
    }
}

/// Splitting never loses or invents a character: there is always at least
/// one piece, and the pieces joined with the separator give back the input.
pub proof fn law_split_rejoins(s: Seq<char>, sep: char)
    ensures
        split_unquoted_spec(s, sep).len() >= 1,
        join_pieces(split_unquoted_spec(s, sep), sep) == s,
{
    lemma_split_from_joins(s, sep, scan_start(), seq![]);
    assert(Seq::<char>::empty() + s =~= s);
}

/// `t` with a backslash before every double quote and every backslash.
pub open spec fn escape(t: Seq<char>) -> Seq<char>
    decreases t.len(),
{
    if t.len() == 0 {
        seq![]
    } else if t[0] == '"' || t[0] == '\\' {
        seq!['\\', t[0]] + escape(t.skip(1))
    } else {
        seq![t[0]] + escape(t.skip(1))
    }
}

/// `t` as a quoted string: escaped and wrapped in double quotes.
pub open spec fn quote(t: Seq<char>) -> Seq<char> {
    seq!['"'] + escape(t) + seq!['"']
}

/// Resolving escapes undoes escaping.
proof fn lemma_unescape_escape(t: Seq<char>)
    ensures
        unescape(escape(t)) == t,
    decreases t.len(),
{
    if t.len() > 0 {
        lemma_unescape_escape(t.skip(1));
        let e = escape(t);
        if t[0] == '"' || t[0] == '\\' {
            assert(e.skip(2) =~= escape(t.skip(1)));
            assert(e[0] == '\\' && e[1] == t[0]);
        } else {
            assert(e.skip(1) =~= escape(t.skip(1)));
            assert(e[0] == t[0]);
        }
        assert(seq![t[0]] + t.skip(1) =~= t);
    }
}

/// Unquoting undoes quoting with backslash escapes, and leaves a value that
/// is not quoted as it is.
pub proof fn law_unquote_inverts_quote(t: Seq<char>, s: Seq<char>)
    ensures
        unquote_spec(quote(t)) == t,
        !(s.len() >= 2 && s[0] == '"' && s.last() == '"') ==> unquote_spec(s) == s,
{
    let q = quote(t);
    assert(q[0] == '"');
    assert(q.last() == '"');
    assert(q.subrange(1, q.len() - 1) =~= escape(t));
    lemma_unescape_escape(t);
}

/// Separating the JUMBF fragment is idempotent, and says what it leaves: a
/// target without a label is returned as it is, and a label is non-empty,
/// holds no `/`, and the target keeps only `#jumbf=` and that label after the
/// first `#`.
pub proof fn law_split_jumbf_idempotent(t: Seq<char>)
    ensures
        split_jumbf_spec(split_jumbf_spec(t).0) == split_jumbf_spec(t),
        split_jumbf_spec(t).1 is None ==> split_jumbf_spec(t).0 == t,
        split_jumbf_spec(t).1 matches Some(label) ==> {
            &&& label.len() > 0
            &&& !label.contains('/')
            &&& first_index(t, '#') matches Some(h) && split_jumbf_spec(t).0 == t.take(h) + seq![
                '#',
            ] + jumbf_chars() + label
        },
{
    lemma_first_index(t, '#');
    if let Some(h) = first_index(t, '#') {
        let fragment = t.skip(h + 1);
        if fragment.len() >= 6 && eq_ignore_ascii_case(fragment.take(6), jumbf_chars()) {
            let label = fragment.skip(6);
            lemma_first_index(label, '/');
            let store = match first_index(label, '/') {
                Some(k) => label.take(k),
                None => label,
            };
            if store.len() > 0 {
                assert(!store.contains('/')) by {
                    if store.contains('/') {
                        let j = choose|j: int| 0 <= j < store.len() && store[j] == '/';
                        assert(label[j] == '/');
                    }
                }
                let u = t.take(h) + seq!['#'] + jumbf_chars() + store;
                // The first `#` of `u` is where it was in `t`.
                assert(u[h] == '#');
                assert forall|j: int| 0 <= j < h implies u[j] != '#' by {
                    assert(u[j] == t[j]);
                }
                lemma_first_index_at(u, '#', h);
                let f2 = u.skip(h + 1);
                assert(f2 =~= jumbf_chars() + store);
                assert(f2.take(6) =~= jumbf_chars());
                let l2 = f2.skip(6);
                assert(l2 =~= store);
                lemma_first_index_none(store, '/');
                assert(u.take(h) =~= t.take(h));
            }
        }
    }
}


/// A link is among those found in several fields exactly when some field
/// holds it.
proof fn lemma_locate_contains(v: Seq<Seq<char>>, x: LinkView)
    ensures
        locate_all_spec(v).contains(x) <==> exists|i: int|
            0 <= i < v.len() && #[trigger] links_in_field(v[i]).contains(x),
    decreases v.len(),
{
    if v.len() > 0 {
        let init = v.drop_last();
        lemma_locate_contains(init, x);
        let a = locate_all_spec(init);
        let b = links_in_field(v.last());
        assert(locate_all_spec(v) == a + b);
        if (a + b).contains(x) {
            let k = choose|k: int| 0 <= k < (a + b).len() && (a + b)[k] == x;
            if k < a.len() {
                assert(a[k] == x);
                assert(a.contains(x));
                let i = choose|i: int| 0 <= i < init.len() && #[trigger] links_in_field(init[i]).contains(x);
                assert(v[i] == init[i]);
            } else {
                assert(b[k - a.len()] == x);
                assert(links_in_field(v[v.len() - 1]).contains(x));
            }
        }
        if exists|i: int| 0 <= i < v.len() && #[trigger] links_in_field(v[i]).contains(x) {
            let i = choose|i: int| 0 <= i < v.len() && #[trigger] links_in_field(v[i]).contains(x);
            if i < v.len() - 1 {
                assert(init[i] == v[i]);
                assert(a.contains(x));
                let k = choose|k: int| 0 <= k < a.len() && a[k] == x;
                assert((a + b)[k] == x);
            } else {
                let k = choose|k: int| 0 <= k < b.len() && b[k] == x;
                assert((a + b)[a.len() + k] == x);
            }
        }
    }
}

/// What `extract_spec` answers depends only on which links occur, not on
/// their order or how often each occurs.
proof fn lemma_extract_by_members(l1: Seq<LinkView>, l2: Seq<LinkView>)
    requires
        forall|x: LinkView| l1.contains(x) <==> l2.contains(x),
    ensures
        extract_spec(l1) == extract_spec(l2),
{
    if l1.len() == 0 {
        if l2.len() > 0 {
            assert(l2.contains(l2[0]));
        }
    } else {
        assert(l1.contains(l1[0]));
        assert(l2.len() > 0);
        assert(l2.contains(l2[0]));
        let all1 = forall|i: int| 0 <= i < l1.len() ==> #[trigger] l1[i] == l1[0];
        let all2 = forall|i: int| 0 <= i < l2.len() ==> #[trigger] l2[i] == l2[0];
        if all1 {
            let k = choose|k: int| 0 <= k < l1.len() && l1[k] == l2[0];
            assert forall|i: int| 0 <= i < l2.len() implies #[trigger] l2[i] == l2[0] by {
                assert(l2.contains(l2[i]));
                let j = choose|j: int| 0 <= j < l1.len() && l1[j] == l2[i];
            }
            assert(l1[0] == l2[0]);
        } else {
            let i = choose|i: int| 0 <= i < l1.len() && #[trigger] l1[i] != l1[0];
            if all2 {
                assert(l1.contains(l1[i]));
                let j = choose|j: int| 0 <= j < l2.len() && l2[j] == l1[i];
                let j0 = choose|j: int| 0 <= j < l2.len() && l2[j] == l1[0];
                assert(l2[j] == l2[0] && l2[j0] == l2[0]);
            }
        }
    }
}

/// `extract` gives the same answer whatever the order of the `Link` fields
/// and however often each is repeated: duplicates collapse, and no order or
/// precedence among links is invented.
pub proof fn law_extract_ignores_order_and_repetition(v: Seq<Seq<char>>, w: Seq<Seq<char>>)
    requires
        forall|f: Seq<char>| v.contains(f) <==> w.contains(f),
    ensures
        extract_spec(locate_all_spec(v)) == extract_spec(locate_all_spec(w)),
{
    assert forall|x: LinkView| locate_all_spec(v).contains(x) <==> locate_all_spec(w).contains(x) by {
        lemma_locate_contains(v, x);
        lemma_locate_contains(w, x);
        if exists|i: int| 0 <= i < v.len() && #[trigger] links_in_field(v[i]).contains(x) {
            let i = choose|i: int| 0 <= i < v.len() && #[trigger] links_in_field(v[i]).contains(x);
            assert(v.contains(v[i]));
            assert(w.contains(v[i]));
            let j = choose|j: int| 0 <= j < w.len() && w[j] == v[i];
            assert(links_in_field(w[j]).contains(x));
        }
        if exists|i: int| 0 <= i < w.len() && #[trigger] links_in_field(w[i]).contains(x) {
            let i = choose|i: int| 0 <= i < w.len() && #[trigger] links_in_field(w[i]).contains(x);
            assert(w.contains(w[i]));
            assert(v.contains(w[i]));
            let j = choose|j: int| 0 <= j < v.len() && v[j] == w[i];
            assert(links_in_field(v[j]).contains(x));
        }
    }
    lemma_extract_by_members(locate_all_spec(v), locate_all_spec(w));
}


/// The UTF-8 encoding of a character other than `#` holds no `#` byte.
proof fn lemma_scalar_has_no_hash(c: char)
    requires
        c != '#',
    ensures
        !vstd::utf8::encode_scalar(c as u32).contains(0x23u8),
{
    let u = c as u32;
    vstd::utf8::char_is_scalar(c);
    let e = vstd::utf8::encode_scalar(u);
    if vstd::utf8::has_width_1_encoding(u) {
        assert(u <= 0x7F ==> ((u & 0x7F) as u8) as u32 == u) by (bit_vector);
        assert(u != 0x23);
        assert(e[0] != 0x23u8);
    } else {
        assert forall|i: int| 0 <= i < e.len() implies e[i] >= 0x80 by {
            let x = ((u >> 6) & 0x1F) as u8;
            let y = ((u >> 12) & 0x0F) as u8;
            let z = ((u >> 18) & 0x7) as u8;
            let p = (u & 0x3F) as u8;
            let q = ((u >> 6) & 0x3F) as u8;
            let r = ((u >> 12) & 0x3F) as u8;
            assert(0xC0u8 | x >= 0x80) by (bit_vector);
            assert(0xE0u8 | y >= 0x80) by (bit_vector);
            assert(0xF0u8 | z >= 0x80) by (bit_vector);
            assert(0x80u8 | p >= 0x80) by (bit_vector);
            assert(0x80u8 | q >= 0x80) by (bit_vector);
            assert(0x80u8 | r >= 0x80) by (bit_vector);
        }
    }
}

/// The UTF-8 encoding of characters without `#` holds no `#` byte.
proof fn lemma_utf8_has_no_hash(cs: Seq<char>)
    requires
        !cs.contains('#'),
    ensures
        !vstd::utf8::encode_utf8(cs).contains(0x23u8),
    decreases cs.len(),
{
    if cs.len() > 0 {
        let tail = cs.drop_first();
        assert(!tail.contains('#')) by {
            if tail.contains('#') {
                let j = choose|j: int| 0 <= j < tail.len() && tail[j] == '#';
                assert(cs[j + 1] == '#');
            }
        }
        assert(cs[0] != '#') by {
            if cs[0] == '#' {
                assert(cs.contains('#'));
            }
        }
        lemma_scalar_has_no_hash(cs[0]);
        lemma_utf8_has_no_hash(tail);
        let h = vstd::utf8::encode_scalar(cs[0] as u32);
        let t = vstd::utf8::encode_utf8(tail);
        assert(vstd::utf8::encode_utf8(cs) == h + t);
        if (h + t).contains(0x23u8) {
            let k = choose|k: int| 0 <= k < (h + t).len() && (h + t)[k] == 0x23u8;
            if k < h.len() {
                assert(h[k] == 0x23u8);
            } else {
                assert(t[k - h.len()] == 0x23u8);
            }
        }
    }
}

/// Encoding bytes without a `#` byte yields no `#`.
proof fn lemma_encoding_has_no_hash(bytes: Seq<u8>)
    requires
        !bytes.contains(0x23u8),
    ensures
        !encode_bytes(bytes).contains('#'),
    decreases bytes.len(),
{
    if bytes.len() > 0 {
        let init = bytes.drop_last();
        assert(!init.contains(0x23u8)) by {
            if init.contains(0x23u8) {
                let j = choose|j: int| 0 <= j < init.len() && init[j] == 0x23u8;
                assert(bytes[j] == 0x23u8);
            }
        }
        lemma_encoding_has_no_hash(init);
        let b = bytes.last();
        assert(b != 0x23u8) by {
            if b == 0x23u8 {
                assert(bytes.contains(bytes[bytes.len() - 1]));
            }
        }
        let a = encode_bytes(init);
        let e = encode_byte(b);
        if must_encode(b) {
            assert(hex_digit(b / 16) as u32 == (if b / 16 < 10 { b / 16 + 48 } else { b / 16 + 55 }));
            assert(hex_digit(b % 16) as u32 == (if b % 16 < 10 { b % 16 + 48 } else { b % 16 + 55 }));
        } else {
            assert((b as char) as u32 == b);
        }
        assert(!e.contains('#')) by {
            if e.contains('#') {
                let j = choose|j: int| 0 <= j < e.len() && e[j] == '#';
                assert(e[j] as u32 == 0x23);
            }
        }
        if (a + e).contains('#') {
            let k = choose|k: int| 0 <= k < (a + e).len() && (a + e)[k] == '#';
            if k < a.len() {
                assert(a[k] == '#');
            } else {
                assert(e[k - a.len()] == '#');
            }
        }
    }
}

/// For a non-empty target without `#`, extracting the header that `format`
/// builds gives back the percent-encoded target with no JUMBF label: a target
/// that needs no encoding comes back unchanged, and `a b` comes back as
/// `a%20b`.
pub proof fn law_format_round_trip_without_fragment(uri: &str)
    requires
        uri@.len() > 0,
        !uri@.contains('#'),
    ensures
        extract_spec(locate_all_spec(seq![header_for(encode_bytes(utf8_bytes(uri)))])) == Ok::<
            LinkView,
            Error,
        >((encode_bytes(utf8_bytes(uri)), None)),
{
    let t = encode_bytes(utf8_bytes(uri));
    law_format_round_trip(uri);
    lemma_utf8_has_no_hash(uri@);
    lemma_encoding_has_no_hash(utf8_bytes(uri));
    lemma_first_index(t, '#');
    if let Some(h) = first_index(t, '#') {
        assert(t.contains(t[h]));
    }
    assert(split_jumbf_spec(t) == (t, None::<Seq<char>>));
}


/// The scanner's state just before position `i` of `s`: inside a `<target>`,
/// inside a quoted string, and whether the character at `i` is escaped.
pub open spec fn state_before(s: Seq<char>, sep: char, i: int) -> ScanState
    decreases i,
{
    if i <= 0 {
        scan_start()
    } else {
        scan_step(state_before(s, sep, i - 1), s[i - 1], sep).0
    }
}

/// Whether `s` is cut at position `i`.
pub open spec fn cut_at(s: Seq<char>, sep: char, i: int) -> bool {
    0 <= i < s.len() && scan_step(state_before(s, sep, i), s[i], sep).1
}

/// The first `n` characters of `s` cut at exactly the positions where
/// `cut_at` holds, the separator itself dropped.
pub open spec fn cut_pieces(s: Seq<char>, sep: char, n: int) -> Seq<Seq<char>>
    decreases n,
{
    if n <= 0 {
        seq![seq![]]
    } else {
        let p = cut_pieces(s, sep, n - 1);
        if cut_at(s, sep, n - 1) {
            p.push(seq![])
        } else {
            p.update(p.len() - 1, p.last().push(s[n - 1]))
        }
    }
}

/// After the first `m` characters, the pieces found so far followed by what
/// the scanner still finds are the pieces of the whole.
proof fn lemma_cut_pieces_prefix(s: Seq<char>, sep: char, m: int)
    requires
        0 <= m <= s.len(),
    ensures
        cut_pieces(s, sep, m).len() >= 1,
        split_unquoted_spec(s, sep) == cut_pieces(s, sep, m).drop_last() + split_from(
            s.skip(m),
            sep,
            state_before(s, sep, m),
            cut_pieces(s, sep, m).last(),
        ),
    decreases m,
{
    if m == 0 {
        assert(s.skip(0) =~= s);
        assert(cut_pieces(s, sep, 0).drop_last() =~= Seq::<Seq<char>>::empty());
        assert(Seq::<Seq<char>>::empty() + split_unquoted_spec(s, sep) =~= split_unquoted_spec(
            s,
            sep,
        ));
    } else {
        let k = m - 1;
        lemma_cut_pieces_prefix(s, sep, k);
        let p = cut_pieces(s, sep, k);
        let st = state_before(s, sep, k);
        let rest = s.skip(k);
        assert(rest[0] == s[k]);
        assert(rest.drop_first() =~= s.skip(m));
        let (next, split) = scan_step(st, s[k], sep);
        assert(state_before(s, sep, m) == next);
        if split {
            assert(cut_pieces(s, sep, m) == p.push(seq![]));
            assert(p.push(seq![]).drop_last() =~= p);
            assert(p.drop_last() + (seq![p.last()] + split_from(s.skip(m), sep, next, seq![]))
                =~= p + split_from(s.skip(m), sep, next, seq![])) by {
                assert(p.drop_last().push(p.last()) =~= p);
            }
        } else {
            let q = p.update(p.len() - 1, p.last().push(s[k]));
            assert(cut_pieces(s, sep, m) == q);
            assert(q.drop_last() =~= p.drop_last());
            assert(q.last() == p.last().push(s[k]));
        }
    }
}

/// Where splitting cuts: the pieces of `s` are exactly what cutting `s` at
/// the positions where `cut_at` holds leaves, and a cut lies only at a
/// separator outside `<...>`, outside a quoted string and not escaped by a
/// backslash. For a separator that is not itself `"`, `<`, `>` or `\`,
/// every such separator is a cut.
pub proof fn law_split_cuts_at_unquoted_separators(s: Seq<char>, sep: char)
    ensures
        split_unquoted_spec(s, sep) == cut_pieces(s, sep, s.len() as int),
        forall|i: int|
            #[trigger] cut_at(s, sep, i) ==> {
                let st = state_before(s, sep, i);
                s[i] == sep && !st.angle && !st.quote && !st.escaped
            },
        sep != '"' && sep != '<' && sep != '>' && sep != '\\' ==> forall|i: int|
            0 <= i < s.len() ==> (#[trigger] cut_at(s, sep, i) <==> {
                let st = state_before(s, sep, i);
                s[i] == sep && !st.angle && !st.quote && !st.escaped
            }),
{
    let n = s.len() as int;
    lemma_cut_pieces_prefix(s, sep, n);
    let p = cut_pieces(s, sep, n);
    assert(s.skip(n) =~= Seq::<char>::empty());
    assert(p.drop_last() + seq![p.last()] =~= p);
}


/// The links found in one link-value: none, or the one it advertises.
pub open spec fn link_list(l: Option<LinkView>) -> Seq<LinkView> {
    match l {
        Some(x) => seq![x],
        None => seq![],
    }
}

/// Every link-value of a field is searched, in order: the links of the
/// link-values `a` followed by `b` are those of `a` followed by those of `b`,
/// and a single link-value yields exactly the link it advertises, if any.
pub proof fn law_links_in_pieces_concatenate(a: Seq<Seq<char>>, b: Seq<Seq<char>>, p: Seq<char>)
    ensures
        links_in_pieces(a + b) == links_in_pieces(a) + links_in_pieces(b),
        links_in_pieces(seq![p]) == link_list(link_of_value(p)),
    decreases b.len(),
{
    let one = seq![p];
    assert(one.drop_last() =~= Seq::<Seq<char>>::empty());
    assert(links_in_pieces(Seq::<Seq<char>>::empty()) == Seq::<LinkView>::empty());
    assert(links_in_pieces(one) =~= link_list(link_of_value(p)));
    if b.len() == 0 {
        assert(a + b =~= a);
        assert(links_in_pieces(a) + links_in_pieces(b) =~= links_in_pieces(a));
    } else {
        law_links_in_pieces_concatenate(a, b.drop_last(), p);
        assert((a + b).drop_last() =~= a + b.drop_last());
        assert((a + b).last() == b.last());
        assert(links_in_pieces(a + b) =~= links_in_pieces(a) + links_in_pieces(b));
    }
}

/// The links of the pieces are, in order, the links that the pieces advertise
/// one by one: the `k`-th piece's link is found, and found after the links of
/// every earlier piece.
pub proof fn law_every_link_value_is_searched(pieces: Seq<Seq<char>>, k: int)
    requires
        0 <= k < pieces.len(),
    ensures
        links_in_pieces(pieces) == links_in_pieces(pieces.take(k)) + link_list(
            link_of_value(pieces[k]),
        ) + links_in_pieces(pieces.skip(k + 1)),
        link_of_value(pieces[k]) matches Some(l) ==> links_in_pieces(pieces).contains(l),
{
    let pre = pieces.take(k);
    let post = pieces.skip(k + 1);
    assert(pieces =~= pre + seq![pieces[k]] + post);
    law_links_in_pieces_concatenate(pre + seq![pieces[k]], post, pieces[k]);
    law_links_in_pieces_concatenate(pre, seq![pieces[k]], pieces[k]);
    if let Some(l) = link_of_value(pieces[k]) {
        let all = links_in_pieces(pieces);
        let i = links_in_pieces(pre).len() as int;
        assert(all[i] == l);
    }
}

/// The links of a single `Link` field are those of its comma-separated
/// link-values, searched one by one.
pub proof fn law_field_links(v: Seq<char>, k: int)
    requires
        0 <= k < split_unquoted_spec(v, ',').len(),
    ensures
        locate_all_spec(seq![v]) == links_in_field(v),
        link_of_value(split_unquoted_spec(v, ',')[k]) matches Some(l) ==> locate_all_spec(
            seq![v],
        ).contains(l),
{
    let one = seq![v];
    assert(one.drop_last() =~= Seq::<Seq<char>>::empty());
    assert(locate_all_spec(Seq::<Seq<char>>::empty()) == Seq::<LinkView>::empty());
    assert(locate_all_spec(one) =~= links_in_field(v));
    law_every_link_value_is_searched(split_unquoted_spec(v, ','), k);
}

/// The relation names `c2pa-manifest` wherever it stands in the list: a
/// token equal to `c2pa-manifest` without ASCII case, preceded by the start
/// or ASCII whitespace and followed by the end or ASCII whitespace.
pub proof fn law_relation_token_anywhere(x: Seq<char>, t: Seq<char>, y: Seq<char>)
    requires
        eq_ignore_ascii_case(t, rel_chars()),
        x.len() == 0 || is_ascii_space(x.last()),
        y.len() == 0 || is_ascii_space(y[0]),
    ensures
        names_manifest_relation(x + t + y),
{
    let rel = x + t + y;
    let i = x.len() as int;
    assert(rel.subrange(i, i + 13) =~= t);
    if i > 0 {
        assert(rel[i - 1] == x.last());
    }
    if y.len() > 0 {
        assert(rel[i + 13] == y[0]);
    }
    assert(relation_token_at(rel, i));
}

/// A relation that names `c2pa-manifest` holds it as a whole token: split at
/// some point into what comes before, a token equal to `c2pa-manifest`
/// without ASCII case, and what comes after, each side ending or starting
/// with ASCII whitespace or empty.
pub proof fn law_relation_needs_a_token(rel: Seq<char>)
    requires
        names_manifest_relation(rel),
    ensures
        exists|i: int|
            #![trigger rel.subrange(i, i + 13)]
            0 <= i && i + 13 <= rel.len() && {
                let x = rel.take(i);
                let t = rel.subrange(i, i + 13);
                let y = rel.skip(i + 13);
                &&& rel == x + t + y
                &&& eq_ignore_ascii_case(t, rel_chars())
                &&& (x.len() == 0 || is_ascii_space(x.last()))
                &&& (y.len() == 0 || is_ascii_space(y[0]))
            },
{
    let i = choose|i: int| relation_token_at(rel, i);
    let x = rel.take(i);
    let t = rel.subrange(i, i + 13);
    let y = rel.skip(i + 13);
    assert(rel =~= x + t + y);
    if x.len() > 0 {
        assert(x.last() == rel[i - 1]);
    }
    if y.len() > 0 {
        assert(y[0] == rel[i + 13]);
    }
}

/// A target naming an embedded Manifest Store is recognised whatever its base
/// holds (a path, a query string, anything but `#`): after the first `#`,
/// `jumbf=` in any ASCII case and a non-empty label, the childlabel after the
/// next `/` is dropped, and the label is the store.
pub proof fn law_jumbf_store_recognised(
    base: Seq<char>,
    prefix: Seq<char>,
    label: Seq<char>,
    rest: Seq<char>,
)
    requires
        !base.contains('#'),
        eq_ignore_ascii_case(prefix, jumbf_chars()),
        label.len() > 0,
        !label.contains('/'),
        rest.len() == 0 || rest[0] == '/',
    ensures
        split_jumbf_spec(base + seq!['#'] + prefix + label + rest) == (
            base + seq!['#'] + jumbf_chars() + label,
            Some(label),
        ),
{
    let t = base + seq!['#'] + prefix + label + rest;
    let h = base.len() as int;
    assert(t[h] == '#');
    assert forall|j: int| 0 <= j < h implies t[j] != '#' by {
        assert(t[j] == base[j]);
        if t[j] == '#' {
            assert(base.contains(base[j]));
        }
    }
    lemma_first_index_at(t, '#', h);
    let fragment = t.skip(h + 1);
    assert(fragment =~= prefix + label + rest);
    assert(fragment.take(6) =~= prefix);
    let l = fragment.skip(6);
    assert(l =~= label + rest);
    assert forall|j: int| 0 <= j < label.len() implies l[j] != '/' by {
        assert(l[j] == label[j]);
        if label[j] == '/' {
            assert(label.contains(label[j]));
        }
    }
    if rest.len() > 0 {
        assert(l[label.len() as int] == '/');
        lemma_first_index_at(l, '/', label.len() as int);
        assert(l.take(label.len() as int) =~= label);
    } else {
        assert(l =~= label);
        lemma_first_index_none(l, '/');
    }
    assert(t.take(h) =~= base);
}

/// A target is kept whole, with no store, when it has no `#`, or when what
/// follows its first `#` is not `jumbf=` (in any ASCII case) and a non-empty
/// label.
pub proof fn law_jumbf_absent_keeps_target(base: Seq<char>, fragment: Seq<char>, plain: Seq<char>)
    requires
        !base.contains('#'),
        !plain.contains('#'),
        !(fragment.len() >= 6 && eq_ignore_ascii_case(fragment.take(6), jumbf_chars())) || {
            let l = fragment.skip(6);
            l.len() == 0 || l[0] == '/'
        },
    ensures
        split_jumbf_spec(base + seq!['#'] + fragment) == (base + seq!['#'] + fragment, None::<
            Seq<char>,
        >),
        split_jumbf_spec(plain) == (plain, None::<Seq<char>>),
{
    lemma_first_index(plain, '#');
    if let Some(k) = first_index(plain, '#') {
        assert(plain.contains(plain[k]));
    }
    let t = base + seq!['#'] + fragment;
    let h = base.len() as int;
    assert(t[h] == '#');
    assert forall|j: int| 0 <= j < h implies t[j] != '#' by {
        assert(t[j] == base[j]);
        if t[j] == '#' {
            assert(base.contains(base[j]));
        }
    }
    lemma_first_index_at(t, '#', h);
    assert(t.skip(h + 1) =~= fragment);
    let l = fragment.skip(6);
    if l.len() > 0 && l[0] == '/' {
        lemma_first_index_at(l, '/', 0);
        assert(l.take(0) =~= Seq::<char>::empty());
    }
}

/// Whether a byte may stand literally in a URI according to RFC 3986: an
/// unreserved character (letter, digit, `-`, `.`, `_`, `~`), a reserved one
/// (the gen-delims `: / ? # [ ] @` and the sub-delims `! $ & ' ( ) * + , ; =`),
/// or `%`, which introduces a percent-encoding.
pub open spec fn rfc3986_char(b: u8) -> bool {
    let unreserved = (0x41 <= b <= 0x5A) || (0x61 <= b <= 0x7A) || (0x30 <= b <= 0x39) || b
        == 0x2D || b == 0x2E || b == 0x5F || b == 0x7E;
    let gen_delims = b == 0x3A || b == 0x2F || b == 0x3F || b == 0x23 || b == 0x5B || b == 0x5D
        || b == 0x40;
    let sub_delims = b == 0x21 || b == 0x24 || b == 0x26 || b == 0x27 || b == 0x28 || b == 0x29
        || b == 0x2A || b == 0x2B || b == 0x2C || b == 0x3B || b == 0x3D;
    unreserved || gen_delims || sub_delims || b == 0x25
}

/// Encoding keeps exactly the bytes that RFC 3986 lets stand in a URI, every
/// delimiter included, and writes every other byte as `%` and two upper-case
/// hexadecimal digits of its value.
pub proof fn law_encoding_keeps_exactly_uri_characters(b: u8)
    ensures
        !must_encode(b) <==> rfc3986_char(b),
        rfc3986_char(b) ==> encode_byte(b) == seq![b as char],
        !rfc3986_char(b) ==> encode_byte(b) == seq!['%', hex_digit(b / 16), hex_digit(b % 16)],
        forall|n: u8|
            n < 16 ==> (#[trigger] hex_digit(n) as u32) == (if n < 10 {
                0x30 + n
            } else {
                0x41 + n - 10
            }),
{
    assert forall|n: u8| n < 16 implies (#[trigger] hex_digit(n) as u32) == (if n < 10 {
        0x30 + n
    } else {
        0x41 + n - 10
    }) by {}
}

} // verus!
