//! Attaching the `c2pa-manifest` link to an `http::HeaderMap`, and reading it
//! back.
//!
//! The header is appended, never set: a response may already carry `Link`
//! fields for preload, canonical, or pagination hints, and replacing them
//! would break unrelated behaviour. The Tower `Layer` and `Service` that
//! attach it to every response are built on [`ManifestLinkLayer`].
use vstd::prelude::*;

use http::{HeaderMap, HeaderValue};

use crate::error::Error;
use crate::laws::law_header_is_visible_ascii;
use crate::link::{
    encode_bytes, extract_spec, fields_view, header_for, locate_all_spec, needs_encoding,
    LinkView, ManifestLink,
};
use crate::text::{ascii_text, lemma_ascii_str, utf8_bytes};

verus! {

/// Declares `http::HeaderValue` to Verus, as a type whose contents it does
/// not see: they are read through [`header_value_bytes`].
#[verifier::external_type_specification]
#[verifier::external_body]
pub struct ExHeaderValue(http::HeaderValue);

/// Declares `http::HeaderMap` to Verus, as a type whose contents it does not
/// see: they are read through [`header_fields`].
#[verifier::external_type_specification]
#[verifier::external_body]
#[verifier::reject_recursive_types(T)]
pub struct ExHeaderMap<T>(http::HeaderMap<T>);

/// The bytes that a header value holds. What is known of it is what the
/// trusted wrappers of `HeaderValue::from_str`, `HeaderValue::to_str`,
/// `HeaderMap::append` and `HeaderMap::get_all` below state.
pub uninterp spec fn header_value_bytes(v: HeaderValue) -> Seq<u8>;

/// The fields that a header map holds: for each header name, in lower case,
/// the bytes of its values in the order in which they were added. What is
/// known of it is what the trusted wrappers of `HeaderMap::append` and
/// `HeaderMap::get_all` below state.
pub uninterp spec fn header_fields(m: HeaderMap) -> Map<Seq<u8>, Seq<Seq<u8>>>;

/// The name `link`, in lower case.
pub open spec fn link_name() -> Seq<u8> {
    seq![0x6Cu8, 0x69u8, 0x6Eu8, 0x6Bu8]
}

/// The values of the `Link` fields of a header map, in order.
pub open spec fn link_field_values(m: HeaderMap) -> Seq<Seq<u8>> {
    if header_fields(m).dom().contains(link_name()) {
        header_fields(m)[link_name()]
    } else {
        seq![]
    }
}

/// Whether a byte may appear in a header value: `HeaderValue::from_str`
/// accepts tab and every byte from 32 up, except DEL.
pub open spec fn header_value_byte(b: u8) -> bool {
    (b >= 32 && b != 127) || b == 9
}

/// Whether a byte is visible ASCII, which `HeaderValue::to_str` requires:
/// tab and the bytes from 32 to 126.
pub open spec fn visible_ascii_byte(b: u8) -> bool {
    (b >= 32 && b < 127) || b == 9
}

/// `HeaderValue::from_str`: succeeds exactly when every byte of `s` may
/// appear in a header value, and then holds the bytes of `s`.
#[verifier::external_body]
fn header_value_from_str(s: &str) -> (r: Option<HeaderValue>)
    ensures
        r is Some <==> forall|i: int|
            0 <= i < crate::text::utf8_bytes(s).len() ==> header_value_byte(
                #[trigger] crate::text::utf8_bytes(s)[i],
            ),
        r matches Some(v) ==> header_value_bytes(v) == crate::text::utf8_bytes(s),
{
    HeaderValue::from_str(s).ok()
}

/// `HeaderValue::to_str`: yields the value as text exactly when every byte is
/// visible ASCII, and the text is then those bytes.
#[verifier::external_body]
fn header_value_to_str(v: &HeaderValue) -> (r: Option<&str>)
    ensures
        r is Some <==> forall|i: int|
            0 <= i < header_value_bytes(*v).len() ==> visible_ascii_byte(
                #[trigger] header_value_bytes(*v)[i],
            ),
        r matches Some(s) ==> crate::text::utf8_bytes(s) == header_value_bytes(*v),
{
    v.to_str().ok()
}

/// `HeaderMap::append` under the name `link`: the value is pushed after the
/// `Link` values already present, and every other field is unchanged.
/// The map panics when it would outgrow its capacity, which a map with fewer
/// than 6554 distinct names never reaches.
#[verifier::external_body]
fn append_link_field(headers: &mut HeaderMap, value: HeaderValue)
    requires
        header_fields(*old(headers)).dom().len() < 6554,
    ensures
        header_fields(*final(headers)) == header_fields(*old(headers)).insert(
            link_name(),
            link_field_values(*old(headers)).push(header_value_bytes(value)),
        ),
{
    headers.append(http::header::LINK, value);
}

/// `HeaderMap::keys_len`: the number of distinct header names in the map.
#[verifier::external_body]
fn header_name_count(headers: &HeaderMap) -> (r: usize)
    ensures
        r == header_fields(*headers).dom().len(),
{
    headers.keys_len()
}

/// `HeaderValue::clone`: a value holding the same bytes.
#[verifier::external_body]
fn clone_header_value(v: &HeaderValue) -> (r: HeaderValue)
    ensures
        header_value_bytes(r) == header_value_bytes(*v),
{
    v.clone()
}

/// `HeaderMap::get_all` under the name `link`: the `Link` values, in order.
#[verifier::external_body]
fn link_fields(headers: &HeaderMap) -> (r: Vec<&HeaderValue>)
    ensures
        r@.len() == link_field_values(*headers).len(),
        forall|i: int|
            0 <= i < r@.len() ==> header_value_bytes(*#[trigger] r@[i]) == link_field_values(
                *headers,
            )[i],
{
    headers.get_all(http::header::LINK).iter().collect()
}


/// Whether every byte of a header value is visible ASCII.
pub open spec fn all_visible_ascii(bytes: Seq<u8>) -> bool {
    forall|i: int| 0 <= i < bytes.len() ==> visible_ascii_byte(#[trigger] bytes[i])
}

/// The header values that can be read as text, as text, in order: a value
/// that is not visible ASCII is skipped, so that a malformed unrelated `Link`
/// field cannot hide a good one.
pub open spec fn readable_values(values: Seq<Seq<u8>>) -> Seq<Seq<char>>
    decreases values.len(),
{
    if values.len() == 0 {
        seq![]
    } else {
        let earlier = readable_values(values.drop_last());
        if all_visible_ascii(values.last()) {
            earlier.push(ascii_text(values.last()))
        } else {
            earlier
        }
    }
}

/// The bytes of the header value that advertises `uri`.
pub open spec fn advertised_value(uri: &str) -> Seq<u8> {
    vstd::utf8::encode_utf8(header_for(encode_bytes(utf8_bytes(uri))))
}

/// Append a `c2pa-manifest` link to a header map.
///
/// Appends rather than replaces, so existing `Link` fields survive. The target
/// is percent-encoded, so a hostile URI is rendered inert rather than
/// rejected: a CR/LF ends up inside the URI as `%0D%0A` instead of starting a
/// header of its own. Only an empty target is an error.
pub fn append_to(headers: &mut HeaderMap, uri: &str) -> (r: Result<(), Error>)
    requires
        header_fields(*old(headers)).dom().len() < 6554,
    ensures
        uri@.len() == 0 ==> r == Err::<(), Error>(Error::Malformed("target URI is empty"))
            && header_fields(*final(headers)) == header_fields(*old(headers)),
        uri@.len() > 0 ==> r is Ok && header_fields(*final(headers)) == header_fields(
            *old(headers),
        ).insert(link_name(), link_field_values(*old(headers)).push(advertised_value(uri))),
{
    let value = match crate::link::format(uri) {
        Ok(v) => v,
        Err(e) => return Err(e),
    };
    proof {
        law_header_is_visible_ascii(uri);
    }
    let header = match header_value_from_str(value.as_str()) {
        Some(h) => h,
        None => return Err(Error::Malformed("target URI is not a valid header value")),
    };
    append_link_field(headers, header);
    Ok(())
}

/// Whether a `c2pa-manifest` link can be appended to the map with
/// [`append_to`]: the map holds few enough distinct header names that
/// appending cannot exceed its capacity.
pub fn has_room_for_link(headers: &HeaderMap) -> (r: bool)
    ensures
        r == (header_fields(*headers).dom().len() < 6554),
{
    header_name_count(headers) < 6554
}

/// The `Link` values of a header map that can be read as text, in the order
/// in which they were added; a value that is not visible ASCII is skipped.
pub fn link_texts(headers: &HeaderMap) -> (r: Vec<&str>)
    ensures
        fields_view(r@) == readable_values(link_field_values(*headers)),
{
    let fields = link_fields(headers);
    let ghost values = link_field_values(*headers);
    let mut texts: Vec<&str> = Vec::new();
    for i in 0..fields.len()
        invariant
            fields@.len() == values.len(),
            forall|j: int|
                0 <= j < fields@.len() ==> header_value_bytes(*#[trigger] fields@[j]) == values[j],
            fields_view(texts@) == readable_values(values.take(i as int)),
    {
        assert(values.take(i + 1).drop_last() =~= values.take(i as int));
        assert(values.take(i + 1).last() == values[i as int]);
        let ghost before = fields_view(texts@);
        match header_value_to_str(fields[i]) {
            Some(s) => {
                proof {
                    lemma_ascii_str(s);
                }
                texts.push(s);
                assert(fields_view(texts@) =~= before.push(s@));
            },
            None => {},
        }
    }
    assert(values.take(fields.len() as int) =~= values);
    texts
}

/// The `c2pa-manifest` link advertised by a header map, if exactly one is.
///
/// Header values that are not visible ASCII are skipped rather than failing
/// the lookup: a malformed unrelated `Link` field must not hide a good one.
pub fn extract_from(headers: &HeaderMap) -> (r: Result<ManifestLink, Error>)
    ensures
        match r {
            Ok(l) => extract_spec(locate_all_spec(readable_values(link_field_values(*headers))))
                == Ok::<LinkView, Error>(l@),
            Err(e) => extract_spec(locate_all_spec(readable_values(link_field_values(*headers))))
                == Err::<LinkView, Error>(e),
        },
{
    let texts = link_texts(headers);
    crate::link::extract(texts.as_slice())
}

/// A `Layer` that appends a `c2pa-manifest` link to every response: the
/// header value is rendered once, when the layer is built.
///
/// The target is fixed for the life of the layer. For a target that varies
/// per request, call [`append_to`] from your own middleware instead.
#[derive(Debug)]
pub struct ManifestLinkLayer {
    header: HeaderValue,
}

impl ManifestLinkLayer {
    /// The bytes of the header value that the layer appends.
    pub closed spec fn value_bytes(&self) -> Seq<u8> {
        header_value_bytes(self.header)
    }

    /// Build a layer advertising `uri`, percent-encoded so that any input
    /// produces a safe header. Only an empty target is an error.
    pub fn new(uri: &str) -> (r: Result<Self, Error>)
        ensures
            uri@.len() == 0 ==> r == Err::<Self, Error>(Error::Malformed("target URI is empty")),
            uri@.len() > 0 ==> (r matches Ok(l) && l.value_bytes() == advertised_value(uri)),
    {
        let value = match crate::link::format(uri) {
            Ok(v) => v,
            Err(e) => return Err(e),
        };
        proof {
            law_header_is_visible_ascii(uri);
        }
        Self::from_value(value)
    }

    /// As [`new`](Self::new), but fails if `uri` is not already a valid URI
    /// reference instead of repairing it: a stray space in a configured
    /// target becomes a startup error rather than a silent `%20`.
    pub fn new_strict(uri: &str) -> (r: Result<Self, Error>)
        ensures
            uri@.len() == 0 ==> r == Err::<Self, Error>(Error::Malformed("target URI is empty")),
            uri@.len() > 0 && needs_encoding(utf8_bytes(uri)) ==> r == Err::<Self, Error>(
                Error::Malformed("target URI contains characters that a URI must percent-encode"),
            ),
            uri@.len() > 0 && !needs_encoding(utf8_bytes(uri)) ==> (r matches Ok(l)
                && l.value_bytes() == advertised_value(uri)),
    {
        let value = match crate::link::format_strict(uri) {
            Ok(v) => v,
            Err(e) => return Err(e),
        };
        proof {
            law_header_is_visible_ascii(uri);
            crate::laws::law_strict_agrees_with_lenient(uri);
        }
        Self::from_value(value)
    }

    /// The layer for a rendered header value, if it is a valid one.
    fn from_value(value: String) -> (r: Result<Self, Error>)
        ensures
            r is Ok <==> forall|i: int|
                0 <= i < vstd::utf8::encode_utf8(value@).len() ==> header_value_byte(
                    #[trigger] vstd::utf8::encode_utf8(value@)[i],
                ),
            r matches Ok(l) ==> l.value_bytes() == vstd::utf8::encode_utf8(value@),
            r matches Err(e) ==> e == Error::Malformed("target URI is not a valid header value"),
    {
        match header_value_from_str(value.as_str()) {
            Some(header) => Ok(Self { header }),
            None => Err(Error::Malformed("target URI is not a valid header value")),
        }
    }

    /// The header value that the layer appends to every response.
    pub fn header(&self) -> (r: &HeaderValue)
        ensures
            header_value_bytes(*r) == self.value_bytes(),
    {
        &self.header
    }

    /// A second layer appending the same header value.
    pub fn duplicate(&self) -> (r: Self)
        ensures
            r.value_bytes() == self.value_bytes(),
    {
        Self { header: clone_header_value(&self.header) }
    }
}

/// Append the layer's `c2pa-manifest` link to a response's headers.
///
/// Appends rather than replaces: every `Link` field already present stays, in
/// its place, and every other field is unchanged.
pub fn append_header(headers: &mut HeaderMap, layer: &ManifestLinkLayer)
    requires
        header_fields(*old(headers)).dom().len() < 6554,
    ensures
        header_fields(*final(headers)) == header_fields(*old(headers)).insert(
            link_name(),
            link_field_values(*old(headers)).push(layer.value_bytes()),
        ),
{
    append_link_field(headers, clone_header_value(layer.header()));
}

} // verus!
