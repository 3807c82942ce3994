//! Errors from locating a manifest link, and the C2PA status codes they map to.
use vstd::prelude::*;

verus! {

/// Errors from locating a C2PA Manifest Store via an HTTP `Link` header.
///
/// Locating a manifest by reference is a prerequisite to validation. A
/// response with no `c2pa-manifest` link simply has no provenance to check,
/// which is not a failure. The one registered status code that belongs here is
/// `manifest.inaccessible`, carried by [`Error::Inaccessible`]: this crate
/// performs no network I/O, so it never raises that itself; a caller that
/// fetches the manifest reports it through the same type.
#[derive(Debug, Clone, PartialEq, Eq)]
pub enum Error {
    /// No `Link` header with `rel="c2pa-manifest"` was present.
    NotFound,
    /// More than one distinct `c2pa-manifest` target was advertised.
    ///
    /// No precedence is defined between competing links, so picking one would
    /// be inventing a rule. Duplicate links naming the same target are not an
    /// error.
    MultipleLinks,
    /// A `Link` field value could not be built or parsed.
    Malformed(&'static str),
    /// A manifest was advertised but could not be retrieved
    /// (`manifest.inaccessible`). Raised by the caller performing the fetch.
    Inaccessible,
}

/// The text of the registered status code `manifest.inaccessible`.
pub open spec fn inaccessible_code() -> Seq<char> {
    seq![
        'm', 'a', 'n', 'i', 'f', 'e', 's', 't', '.', 'i', 'n', 'a', 'c', 'c', 'e', 's', 's', 'i',
        'b', 'l', 'e',
    ]
}

/// The human-readable sentence fragment that describes an error.
pub open spec fn error_message(e: Error) -> Seq<char> {
    match e {
        Error::NotFound => "no c2pa-manifest Link header found"@,
        Error::MultipleLinks => "more than one c2pa-manifest target was advertised"@,
        Error::Malformed(why) => "malformed Link header: "@ + why@,
        Error::Inaccessible => "the advertised manifest could not be retrieved"@,
    }
}

/// Whether an error carries a registered C2PA status code.
pub open spec fn carries_status_code(e: Error) -> bool {
    e is Inaccessible
}

/// Whether an error means that the response advertised no usable provenance
/// at all, as opposed to provenance that was advertised and could not be
/// retrieved.
pub open spec fn locates_no_manifest(e: Error) -> bool {
    e is NotFound || e is MultipleLinks || e is Malformed
}

impl Error {
    /// The registered C2PA validation status code for this error, or `None`
    /// when the condition carries no status code.
    pub fn code(&self) -> (r: Option<&'static str>)
        ensures
            r is Some <==> carries_status_code(*self),
            r matches Some(c) ==> c@ == inaccessible_code(),
    {
        match self {
            Error::Inaccessible => {
                let c = "manifest.inaccessible";
                proof {
                    reveal_strlit("manifest.inaccessible");
                }
                assert(c@ =~= inaccessible_code());
                Some(c)
            },
            Error::NotFound | Error::MultipleLinks | Error::Malformed(_) => None,
        }
    }

    /// Whether this means the response advertised no provenance at all, as
    /// opposed to provenance that was advertised and could not be used.
    pub fn is_no_manifest_located(&self) -> (r: bool)
        ensures
            r == locates_no_manifest(*self),
    {
        match self {
            Error::NotFound | Error::MultipleLinks | Error::Malformed(_) => true,
            Error::Inaccessible => false,
        }
    }

    /// The error rendered as a sentence fragment: lower-case first letter and
    /// no closing period, so that it composes into a longer message.
    pub fn to_string(&self) -> (r: String)
        ensures
            r@ == error_message(*self),
    {
        match self {
            Error::NotFound => String::from_str("no c2pa-manifest Link header found"),
            Error::MultipleLinks => String::from_str(
                "more than one c2pa-manifest target was advertised",
            ),
            Error::Malformed(why) => {
                let mut s = String::from_str("malformed Link header: ");
                s.append(why);
                s
            },
            Error::Inaccessible => String::from_str(
                "the advertised manifest could not be retrieved",
            ),
        }
    }
}

} // verus!
