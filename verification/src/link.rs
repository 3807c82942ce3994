//! The `c2pa-manifest` link relation, parsed and serialised per RFC 8288.
//!
//! ```text
//! Link       = #link-value
//! link-value = "<" URI-Reference ">" *( OWS ";" OWS link-param )
//! link-param = token BWS "=" BWS ( token / quoted-string )
//! ```
//!
//! Commas separate link-values and semicolons separate parameters, but both
//! may appear inside a `<target>` or a quoted string: a query string such as
//! `?a=1,2` is entirely legal. The scanner here tracks both contexts.
use vstd::prelude::*;

use crate::error::Error;
use crate::text::{
    chars_equal, copy_range, eq_ignore_ascii_case, find_char, first_index, from_chars,
    is_ascii_space, is_ascii_space_char, lower_all, lower_copy, push_all, starts_with_ignore_case,
    to_chars, trim, trim_range, push_char, utf8_bytes,
};

verus! {

/// Where the scanner stands after some prefix of a header value: inside a
/// `<target>`, inside a quoted string, and just after a backslash inside a
/// quoted string (so that the next character is taken literally).
#[derive(Clone, Copy)]
pub struct ScanState {
    /// Inside a `<target>`.
    pub angle: bool,
    /// Inside a quoted string.
    pub quote: bool,
    /// The previous character was a backslash inside a quoted string.
    pub escaped: bool,
}

/// The state at the start of a value.
pub open spec fn scan_start() -> ScanState {
    ScanState { angle: false, quote: false, escaped: false }
}

/// One step of the scanner: the state after `c`, and whether `c` is a
/// separator `sep` that splits the value.
pub open spec fn scan_step(st: ScanState, c: char, sep: char) -> (ScanState, bool) {
    if st.escaped {
        (ScanState { angle: st.angle, quote: st.quote, escaped: false }, false)
    } else if c == '\\' && st.quote {
        (ScanState { angle: st.angle, quote: st.quote, escaped: true }, false)
    } else if c == '"' {
        (ScanState { angle: st.angle, quote: !st.quote, escaped: false }, false)
    } else if c == '<' && !st.quote {
        (ScanState { angle: true, quote: st.quote, escaped: false }, false)
    } else if c == '>' && !st.quote {
        (ScanState { angle: false, quote: st.quote, escaped: false }, false)
    } else if c == sep && !st.quote && !st.angle {
        (st, true)
    } else {
        (st, false)
    }
}

/// The pieces of `s` between separators, scanning from state `st` with `cur`
/// already collected into the current piece.
pub open spec fn split_from(s: Seq<char>, sep: char, st: ScanState, cur: Seq<char>) -> Seq<
    Seq<char>,
>
    decreases s.len(),
{
    if s.len() == 0 {
        seq![cur]
    } else {
        let (next, split) = scan_step(st, s[0], sep);
        if split {
            seq![cur] + split_from(s.drop_first(), sep, next, seq![])
        } else {
            split_from(s.drop_first(), sep, next, cur.push(s[0]))
        }
    }
}

/// `s` split on `sep`, ignoring separators inside `<...>` or a quoted string.
pub open spec fn split_unquoted_spec(s: Seq<char>, sep: char) -> Seq<Seq<char>> {
    split_from(s, sep, scan_start(), seq![])
}

/// Split on `sep`, ignoring separators inside `<...>` or a quoted string.
pub fn split_unquoted(v: &[char], sep: char) -> (r: Vec<Vec<char>>)
    ensures
        r@.map_values(|p: Vec<char>| p@) == split_unquoted_spec(v@, sep),
{
    let mut out: Vec<Vec<char>> = Vec::new();
    let mut start: usize = 0;
    let mut i: usize = 0;
    let mut st = ScanState { angle: false, quote: false, escaped: false };
    assert(v@.skip(0) =~= v@);
    assert(v@.subrange(0, 0) =~= Seq::<char>::empty());
    assert(out@.map_values(|p: Vec<char>| p@) + split_unquoted_spec(v@, sep) =~= split_unquoted_spec(v@, sep));
    while i < v.len()
        invariant
            start <= i <= v@.len(),
            split_unquoted_spec(v@, sep) == out@.map_values(|p: Vec<char>| p@) + split_from(
                v@.skip(i as int),
                sep,
                st,
                v@.subrange(start as int, i as int),
            ),
        decreases v@.len() - i,
    {
        let c = v[i];
        let ghost old_out = out@.map_values(|p: Vec<char>| p@);
        let ghost rest = v@.skip(i as int);
        assert(rest[0] == c);
        assert(rest.drop_first() =~= v@.skip(i + 1));
        if st.escaped {
            st = ScanState { angle: st.angle, quote: st.quote, escaped: false };
        } else if c == '\\' && st.quote {
            st = ScanState { angle: st.angle, quote: st.quote, escaped: true };
        } else if c == '"' {
            st = ScanState { angle: st.angle, quote: !st.quote, escaped: false };
        } else if c == '<' && !st.quote {
            st = ScanState { angle: true, quote: st.quote, escaped: false };
        } else if c == '>' && !st.quote {
            st = ScanState { angle: false, quote: st.quote, escaped: false };
        } else if c == sep && !st.quote && !st.angle {
            let piece = copy_range(v, start, i);
            out.push(piece);
            assert(out@.map_values(|p: Vec<char>| p@) =~= old_out + seq![
                v@.subrange(start as int, i as int),
            ]);
            start = i + 1;
            assert(v@.subrange(start as int, i + 1) =~= Seq::<char>::empty());
            i += 1;
            continue;
        }
        assert(v@.subrange(start as int, i as int).push(c) =~= v@.subrange(start as int, i + 1));
        i += 1;
    }
    let last = copy_range(v, start, v.len());
    let ghost before = out@.map_values(|p: Vec<char>| p@);
    out.push(last);
    assert(out@.map_values(|p: Vec<char>| p@) =~= before + seq![v@.subrange(start as int, v@.len() as int)]);
    out
}


/// `s` with backslash escapes resolved: a backslash stands for the character
/// after it, and a trailing backslash stands for nothing.
pub open spec fn unescape(s: Seq<char>) -> Seq<char>
    decreases s.len(),
{
    if s.len() == 0 {
        seq![]
    } else if s[0] == '\\' {
        if s.len() == 1 {
            seq![]
        } else {
            seq![s[1]] + unescape(s.skip(2))
        }
    } else {
        seq![s[0]] + unescape(s.skip(1))
    }
}

/// A parameter value with its surrounding quotes stripped and its escapes
/// resolved; a value that is not quoted is kept as it is.
pub open spec fn unquote_spec(s: Seq<char>) -> Seq<char> {
    if s.len() >= 2 && s[0] == '"' && s.last() == '"' {
        unescape(s.subrange(1, s.len() - 1))
    } else {
        s
    }
}

/// Strip surrounding quotes and resolve backslash escapes.
pub fn unquote(v: &[char]) -> (r: Vec<char>)
    ensures
        r@ == unquote_spec(v@),
{
    let n = v.len();
    if !(n >= 2 && v[0] == '"' && v[n - 1] == '"') {
        return copy_range(v, 0, n);
    }
    let hi = n - 1;
    let mut out: Vec<char> = Vec::new();
    let mut i: usize = 1;
    while i < hi
        invariant
            n == v@.len(),
            hi == n - 1,
            1 <= i <= hi,
            unescape(v@.subrange(1, hi as int)) == out@ + unescape(v@.subrange(i as int, hi as int)),
        decreases hi - i,
    {
        let ghost rest = v@.subrange(i as int, hi as int);
        let ghost before = out@;
        assert(rest[0] == v@[i as int]);
        if v[i] == '\\' {
            if i + 1 < hi {
                out.push(v[i + 1]);
                assert(rest[1] == v@[i + 1]);
                assert(rest.skip(2) =~= v@.subrange(i + 2, hi as int));
                assert(before + (seq![v@[i + 1]] + unescape(rest.skip(2))) =~= out@ + unescape(
                    rest.skip(2),
                ));
                i += 2;
            } else {
                assert(v@.subrange(i + 1, hi as int) =~= Seq::<char>::empty());
                assert(out@ + unescape(rest) =~= out@ + unescape(v@.subrange(i + 1, hi as int)));
                i += 1;
            }
        } else {
            out.push(v[i]);
            assert(rest.skip(1) =~= v@.subrange(i + 1, hi as int));
            assert(before + (seq![v@[i as int]] + unescape(rest.skip(1))) =~= out@ + unescape(
                rest.skip(1),
            ));
            i += 1;
        }
    }
    assert(v@.subrange(i as int, hi as int) =~= Seq::<char>::empty());
    assert(out@ + Seq::<char>::empty() =~= out@);
    out
}

/// One parameter, already trimmed: its name, ASCII-lowercased, and its
/// value, unquoted. A parameter without `=` has an empty value.
pub open spec fn param_spec(p: Seq<char>) -> (Seq<char>, Seq<char>) {
    match first_index(p, '=') {
        Some(eq) => (lower_all(trim(p.take(eq))), unquote_spec(trim(p.skip(eq + 1)))),
        None => (lower_all(p), seq![]),
    }
}

/// The parameters held by the `;`-separated pieces, skipping empty ones.
pub open spec fn params_of(pieces: Seq<Seq<char>>) -> Seq<(Seq<char>, Seq<char>)>
    decreases pieces.len(),
{
    if pieces.len() == 0 {
        seq![]
    } else {
        let earlier = params_of(pieces.drop_last());
        let p = trim(pieces.last());
        if p.len() == 0 {
            earlier
        } else {
            earlier.push(param_spec(p))
        }
    }
}

/// One link-value parsed into its target and its parameters, or `None` when
/// it has no non-empty `<target>`.
pub open spec fn parse_link_value_spec(value: Seq<char>) -> Option<
    (Seq<char>, Seq<(Seq<char>, Seq<char>)>),
> {
    let v = trim(value);
    match first_index(v, '<') {
        None => None,
        Some(open) => match first_index(v.skip(open + 1), '>') {
            None => None,
            Some(k) => {
                let close = open + 1 + k;
                let target = trim(v.subrange(open + 1, close));
                if target.len() == 0 {
                    None
                } else {
                    Some((target, params_of(split_unquoted_spec(v.skip(close + 1), ';'))))
                }
            },
        },
    }
}

/// The view of a list of parsed parameters.
pub open spec fn params_view(ps: Seq<(Vec<char>, Vec<char>)>) -> Seq<(Seq<char>, Seq<char>)> {
    ps.map_values(|p: (Vec<char>, Vec<char>)| (p.0@, p.1@))
}

/// Parse one trimmed, non-empty parameter.
fn parse_param(p: &[char], a: usize, b: usize) -> (r: (Vec<char>, Vec<char>))
    requires
        a <= b <= p@.len(),
    ensures
        (r.0@, r.1@) == param_spec(p@.subrange(a as int, b as int)),
{
    let ghost q = p@.subrange(a as int, b as int);
    match find_char(p, a, b, '=') {
        Some(eq) => {
            let (na, nb) = trim_range(p, a, eq);
            let name = copy_range(p, na, nb);
            let (va, vb) = trim_range(p, eq + 1, b);
            let value = copy_range(p, va, vb);
            assert(q.take(eq - a) =~= p@.subrange(a as int, eq as int));
            assert(q.skip(eq - a + 1) =~= p@.subrange(eq + 1, b as int));
            (lower_copy(&name), unquote(&value))
        },
        None => {
            let name = copy_range(p, a, b);
            (lower_copy(&name), Vec::new())
        },
    }
}

/// The parameters after a target: the `;`-separated pieces, trimmed, with
/// empty pieces skipped.
fn parse_params(rest: &[char]) -> (r: Vec<(Vec<char>, Vec<char>)>)
    ensures
        params_view(r@) == params_of(split_unquoted_spec(rest@, ';')),
{
    let pieces = split_unquoted(rest, ';');
    let ghost pv = pieces@.map_values(|p: Vec<char>| p@);
    let mut params: Vec<(Vec<char>, Vec<char>)> = Vec::new();
    for i in 0..pieces.len()
        invariant
            pv == pieces@.map_values(|p: Vec<char>| p@),
            params_view(params@) == params_of(pv.take(i as int)),
    {
        let piece = &pieces[i];
        let (pa, pb) = trim_range(piece, 0, piece.len());
        assert(pv.take(i + 1).drop_last() =~= pv.take(i as int));
        assert(pv.take(i + 1).last() == piece@);
        assert(piece@.subrange(0, piece@.len() as int) =~= piece@);
        if pa < pb {
            let ghost before = params_view(params@);
            let param = parse_param(piece, pa, pb);
            params.push(param);
            assert(params_view(params@) =~= before.push(param_spec(piece@.subrange(pa as int, pb as int))));
        }
    }
    assert(pv.take(pieces.len() as int) =~= pv);
    params
}

/// Parse one link-value into its target and parameters. Parameter names are
/// ASCII-lowercased; values are unquoted.
pub fn parse_link_value(v: &[char]) -> (r: Option<(Vec<char>, Vec<(Vec<char>, Vec<char>)>)>)
    ensures
        match r {
            Some((target, params)) => parse_link_value_spec(v@) == Some(
                (target@, params_view(params@)),
            ),
            None => parse_link_value_spec(v@) is None,
        },
{
    let (a, b) = trim_range(v, 0, v.len());
    let ghost t = v@.subrange(a as int, b as int);
    assert(v@.subrange(0, v@.len() as int) =~= v@);
    let open = match find_char(v, a, b, '<') {
        Some(o) => o,
        None => return None,
    };
    assert(t.skip(open - a + 1) =~= v@.subrange(open + 1, b as int));
    let close = match find_char(v, open + 1, b, '>') {
        Some(c) => c,
        None => return None,
    };
    assert(t.subrange(open - a + 1, close - a) =~= v@.subrange(open + 1, close as int));
    assert(t.skip(close - a + 1) =~= v@.subrange(close + 1, b as int));
    let (ta, tb) = trim_range(v, open + 1, close);
    if ta == tb {
        return None;
    }
    let target = copy_range(v, ta, tb);
    let rest = copy_range(v, close + 1, b);
    let params = parse_params(&rest);
    Some((target, params))
}

/// The IANA-registered link relation naming a C2PA Manifest Store.
pub const REL: &'static str = "c2pa-manifest";

/// The characters of the relation name `c2pa-manifest`.
pub open spec fn rel_chars() -> Seq<char> {
    seq!['c', '2', 'p', 'a', '-', 'm', 'a', 'n', 'i', 'f', 'e', 's', 't']
}

/// The characters of the parameter name `rel`.
pub open spec fn rel_key() -> Seq<char> {
    seq!['r', 'e', 'l']
}

/// The characters of the JUMBF fragment prefix `jumbf=`.
pub open spec fn jumbf_chars() -> Seq<char> {
    seq!['j', 'u', 'm', 'b', 'f', '=']
}

/// Whether the whitespace-separated token of `rel` that starts at `i` is
/// `c2pa-manifest`, compared without ASCII case.
pub open spec fn relation_token_at(rel: Seq<char>, i: int) -> bool {
    &&& 0 <= i
    &&& i + 13 <= rel.len()
    &&& eq_ignore_ascii_case(rel.subrange(i, i + 13), rel_chars())
    &&& (i == 0 || is_ascii_space(rel[i - 1]))
    &&& (i + 13 == rel.len() || is_ascii_space(rel[i + 13]))
}

/// Whether a `rel` value, read as a list of relation types separated by ASCII
/// whitespace, names `c2pa-manifest`.
pub open spec fn names_manifest_relation(rel: Seq<char>) -> bool {
    exists|i: int| relation_token_at(rel, i)
}

/// Whether a `rel` value names `c2pa-manifest` among its relation types.
fn has_manifest_relation(rel: &[char]) -> (r: bool)
    ensures
        r == names_manifest_relation(rel@),
{
    let name: [char; 13] = ['c', '2', 'p', 'a', '-', 'm', 'a', 'n', 'i', 'f', 'e', 's', 't'];
    assert(name@ =~= rel_chars());
    let n = rel.len();
    if n < 13 {
        return false;
    }
    let mut i: usize = 0;
    while i <= n - 13
        invariant
            n == rel@.len(),
            n == rel.len(),
            13 <= n,
            i + 13 <= n + 1,
            name@ == rel_chars(),
            forall|j: int| 0 <= j < i ==> !relation_token_at(rel@, j),
        decreases n - i,
    {
        let before_ok = i == 0 || is_ascii_space_char(rel[i - 1]);
        let after_ok = i + 13 == n || is_ascii_space_char(rel[i + 13]);
        if before_ok && after_ok && starts_with_ignore_case(rel, i, &name) {
            assert(relation_token_at(rel@, i as int));
            return true;
        }
        i += 1;
    }
    assert forall|j: int| !relation_token_at(rel@, j) by {
        if 0 <= j < i {
        }
    }
    false
}

/// The target of a link with a JUMBF fragment separated out: the target with
/// any `childlabel` after the store label removed, and the store label.
/// A target whose fragment is not `jumbf=` followed by a non-empty label is
/// kept as it is, with no label.
pub open spec fn split_jumbf_spec(target: Seq<char>) -> (Seq<char>, Option<Seq<char>>) {
    match first_index(target, '#') {
        None => (target, None),
        Some(h) => {
            let fragment = target.skip(h + 1);
            if fragment.len() < 6 || !eq_ignore_ascii_case(fragment.take(6), jumbf_chars()) {
                (target, None)
            } else {
                let label = fragment.skip(6);
                let store = match first_index(label, '/') {
                    Some(k) => label.take(k),
                    None => label,
                };
                if store.len() == 0 {
                    (target, None)
                } else {
                    (target.take(h) + seq!['#'] + jumbf_chars() + store, Some(store))
                }
            }
        },
    }
}

/// Separate a JUMBF fragment from the target, discarding any childlabel.
pub fn split_jumbf(t: &[char]) -> (r: (Vec<char>, Option<Vec<char>>))
    ensures
        (r.0@, match r.1 {
            Some(j) => Some(j@),
            None => None,
        }) == split_jumbf_spec(t@),
{
    let n = t.len();
    assert(t@.subrange(0, n as int) =~= t@);
    let hash = match find_char(t, 0, n, '#') {
        Some(h) => h,
        None => return (copy_range(t, 0, n), None),
    };
    let prefix: [char; 6] = ['j', 'u', 'm', 'b', 'f', '='];
    assert(prefix@ =~= jumbf_chars());
    let ghost fragment = t@.skip(hash + 1);
    if !starts_with_ignore_case(t, hash + 1, &prefix) {
        assert(fragment.len() >= 6 ==> fragment.take(6) =~= t@.subrange(hash + 1, hash + 7));
        return (copy_range(t, 0, n), None);
    }
    assert(fragment.take(6) =~= t@.subrange(hash + 1, hash + 7));
    let lo = hash + 7;
    assert(fragment.skip(6) =~= t@.subrange(lo as int, n as int));
    let end = match find_char(t, lo, n, '/') {
        Some(k) => {
            assert(fragment.skip(6).take(k - lo) =~= t@.subrange(lo as int, k as int));
            k
        },
        None => n,
    };
    if end == lo {
        return (copy_range(t, 0, n), None);
    }
    let store = copy_range(t, lo, end);
    let mut uri = copy_range(t, 0, hash);
    uri.push('#');
    push_all(&mut uri, &prefix);
    push_all(&mut uri, &store);
    assert(t@.take(hash as int) =~= t@.subrange(0, hash as int));
    (uri, Some(store))
}

/// The value of the first `rel` parameter, if any: later occurrences of `rel`
/// are ignored.
pub open spec fn first_rel(params: Seq<(Seq<char>, Seq<char>)>) -> Option<Seq<char>>
    decreases params.len(),
{
    if params.len() == 0 {
        None
    } else if params[0].0 == rel_key() {
        Some(params[0].1)
    } else {
        first_rel(params.drop_first())
    }
}

/// A located link, as the pair of its target and its JUMBF store label.
pub type LinkView = (Seq<char>, Option<Seq<char>>);

/// The `c2pa-manifest` link that one link-value advertises, if any.
pub open spec fn link_of_value(raw: Seq<char>) -> Option<LinkView> {
    match parse_link_value_spec(raw) {
        None => None,
        Some((target, params)) => match first_rel(params) {
            None => None,
            Some(rel) => if names_manifest_relation(rel) {
                Some(split_jumbf_spec(target))
            } else {
                None
            },
        },
    }
}

/// The `c2pa-manifest` links among the given link-values, in order.
pub open spec fn links_in_pieces(pieces: Seq<Seq<char>>) -> Seq<LinkView>
    decreases pieces.len(),
{
    if pieces.len() == 0 {
        seq![]
    } else {
        let earlier = links_in_pieces(pieces.drop_last());
        match link_of_value(pieces.last()) {
            Some(l) => earlier.push(l),
            None => earlier,
        }
    }
}

/// The `c2pa-manifest` links of one `Link` field value, in order.
pub open spec fn links_in_field(value: Seq<char>) -> Seq<LinkView> {
    links_in_pieces(split_unquoted_spec(value, ','))
}

/// Every `c2pa-manifest` link across several `Link` field values, in order.
pub open spec fn locate_all_spec(values: Seq<Seq<char>>) -> Seq<LinkView>
    decreases values.len(),
{
    if values.len() == 0 {
        seq![]
    } else {
        locate_all_spec(values.drop_last()) + links_in_field(values.last())
    }
}

/// A located `c2pa-manifest` link.
#[derive(Debug, Clone, PartialEq, Eq)]
pub struct ManifestLink {
    /// The target URI. When the target carried a JUMBF fragment, any
    /// `childlabel` portion has been removed: only the Manifest Store superbox
    /// may be referenced.
    pub uri: String,
    /// The JUMBF superbox label when the target names an embedded Manifest
    /// Store rather than a separate resource; normally `c2pa`.
    pub jumbf: Option<String>,
}

impl View for ManifestLink {
    type V = LinkView;

    open spec fn view(&self) -> LinkView {
        (
            self.uri@,
            match self.jumbf {
                Some(j) => Some(j@),
                None => None,
            },
        )
    }
}

impl ManifestLink {
    /// Whether the target names a Manifest Store embedded in the asset itself,
    /// as opposed to a resource to be fetched.
    pub fn is_embedded(&self) -> (r: bool)
        ensures
            r == self@.1 is Some,
    {
        self.jumbf.is_some()
    }
}

/// The view of a list of located links.
pub open spec fn links_view(ls: Seq<ManifestLink>) -> Seq<LinkView> {
    ls.map_values(|l: ManifestLink| l@)
}

/// The views of a list of header field values.
pub open spec fn fields_view(values: Seq<&str>) -> Seq<Seq<char>> {
    values.map_values(|s: &str| s@)
}

/// The link that one link-value advertises, if it is a `c2pa-manifest` link.
fn link_from_value(raw: &[char]) -> (r: Option<ManifestLink>)
    ensures
        match r {
            Some(l) => link_of_value(raw@) == Some(l@),
            None => link_of_value(raw@) is None,
        },
{
    let (target, params) = match parse_link_value(raw) {
        Some(p) => p,
        None => return None,
    };
    let ghost pv = params_view(params@);
    let key: [char; 3] = ['r', 'e', 'l'];
    assert(key@ =~= rel_key());
    let mut i: usize = 0;
    assert(pv.skip(0) =~= pv);
    while i < params.len()
        invariant
            i <= params@.len(),
            pv == params_view(params@),
            parse_link_value_spec(raw@) == Some((target@, pv)),
            key@ == rel_key(),
            first_rel(pv) == first_rel(pv.skip(i as int)),
        decreases params@.len() - i,
    {
        assert(pv.skip(i as int)[0] == (params@[i as int].0@, params@[i as int].1@));
        assert(pv.skip(i as int).drop_first() =~= pv.skip(i + 1));
        if chars_equal(&params[i].0, &key) {
            if !has_manifest_relation(&params[i].1) {
                return None;
            }
            let (uri, jumbf) = split_jumbf(&target);
            let uri = from_chars(&uri);
            let jumbf = match jumbf {
                Some(j) => Some(from_chars(&j)),
                None => None,
            };
            return Some(ManifestLink { uri, jumbf });
        }
        i += 1;
    }
    assert(pv.skip(i as int).len() == 0);
    None
}

/// Every `c2pa-manifest` link across the given `Link` header values, in order.
///
/// A response may carry several `Link` header fields, and each may carry
/// several comma-separated link-values; all are searched. A link-value that
/// does not parse is skipped, and only the first `rel` parameter of a
/// link-value counts.
pub fn locate_all(values: &[&str]) -> (r: Vec<ManifestLink>)
    ensures
        links_view(r@) == locate_all_spec(fields_view(values@)),
{
    let ghost fv = fields_view(values@);
    let mut out: Vec<ManifestLink> = Vec::new();
    for f in 0..values.len()
        invariant
            fv == fields_view(values@),
            links_view(out@) == locate_all_spec(fv.take(f as int)),
    {
        let chars = to_chars(values[f]);
        let pieces = split_unquoted(&chars, ',');
        let ghost pv = pieces@.map_values(|p: Vec<char>| p@);
        let ghost base = links_view(out@);
        assert(fv.take(f + 1).drop_last() =~= fv.take(f as int));
        assert(fv.take(f + 1).last() == chars@);
        for k in 0..pieces.len()
            invariant
                pv == pieces@.map_values(|p: Vec<char>| p@),
                links_view(out@) == base + links_in_pieces(pv.take(k as int)),
        {
            assert(pv.take(k + 1).drop_last() =~= pv.take(k as int));
            assert(pv.take(k + 1).last() == pieces@[k as int]@);
            let ghost before = links_view(out@);
            match link_from_value(&pieces[k]) {
                Some(l) => {
                    out.push(l);
                    assert(links_view(out@) =~= before.push(l@));
                    assert(links_view(out@) =~= base + links_in_pieces(pv.take(k + 1)));
                },
                None => {},
            }
        }
        assert(pv.take(pieces.len() as int) =~= pv);
        assert(links_view(out@) =~= locate_all_spec(fv.take(f + 1)));
    }
    assert(fv.take(values.len() as int) =~= fv);
    out
}


/// What a response advertises, given every link it carries: the one target
/// when all links name the same target, `NotFound` when there is none, and
/// `MultipleLinks` when distinct targets compete.
pub open spec fn extract_spec(links: Seq<LinkView>) -> Result<LinkView, Error> {
    if links.len() == 0 {
        Err(Error::NotFound)
    } else if forall|i: int| 0 <= i < links.len() ==> #[trigger] links[i] == links[0] {
        Ok(links[0])
    } else {
        Err(Error::MultipleLinks)
    }
}

/// Whether two located links are the same link.
fn same_link(a: &ManifestLink, b: &ManifestLink) -> (r: bool)
    ensures
        r == (a@ == b@),
{
    if a.uri != b.uri {
        return false;
    }
    match (&a.jumbf, &b.jumbf) {
        (Some(x), Some(y)) => *x == *y,
        (None, None) => true,
        _ => false,
    }
}

/// The single `c2pa-manifest` link advertised by a response.
///
/// Duplicate links naming the same target collapse to one; genuinely
/// competing targets are [`Error::MultipleLinks`], since the specification
/// defines no precedence between them.
pub fn extract(values: &[&str]) -> (r: Result<ManifestLink, Error>)
    ensures
        match r {
            Ok(l) => extract_spec(locate_all_spec(fields_view(values@))) == Ok::<LinkView, Error>(
                l@,
            ),
            Err(e) => extract_spec(locate_all_spec(fields_view(values@))) == Err::<LinkView, Error>(e),
        },
{
    let mut found = locate_all(values);
    let ghost links = links_view(found@);
    if found.len() == 0 {
        return Err(Error::NotFound);
    }
    let n = found.len();
    for i in 1..n
        invariant
            n == found@.len(),
            links == links_view(found@),
            links == locate_all_spec(fields_view(values@)),
            forall|j: int| 0 <= j < i ==> #[trigger] links[j] == links[0],
    {
        if !same_link(&found[i], &found[0]) {
            assert(links[i as int] != links[0]);
            return Err(Error::MultipleLinks);
        }
    }
    assert(links[0] == found@[0]@);
    let first = found.swap_remove(0);
    Ok(first)
}

/// Whether a byte cannot appear literally in a URI reference: the control
/// characters, space, `" < > \ ^ ` { | }`, DEL and every non-ASCII byte.
/// `%` is not among them, so an already-encoded URI is not encoded again.
pub open spec fn must_encode(b: u8) -> bool {
    ||| b <= 0x20
    ||| b >= 0x7F
    ||| b == 0x22
    ||| b == 0x3C
    ||| b == 0x3E
    ||| b == 0x5C
    ||| b == 0x5E
    ||| b == 0x60
    ||| b == 0x7B
    ||| b == 0x7C
    ||| b == 0x7D
}

/// The upper-case hexadecimal digit for `n < 16`.
pub open spec fn hex_digit(n: u8) -> char {
    if n < 10 {
        ((n + 48) as u8) as char
    } else {
        ((n + 55) as u8) as char
    }
}

/// One byte of a target as it is written into a URI: itself, or `%` and two
/// upper-case hexadecimal digits.
pub open spec fn encode_byte(b: u8) -> Seq<char> {
    if must_encode(b) {
        seq!['%', hex_digit(b / 16), hex_digit(b % 16)]
    } else {
        seq![b as char]
    }
}

/// The percent-encoding of a byte sequence.
pub open spec fn encode_bytes(bytes: Seq<u8>) -> Seq<char>
    decreases bytes.len(),
{
    if bytes.len() == 0 {
        seq![]
    } else {
        encode_bytes(bytes.drop_last()) + encode_byte(bytes.last())
    }
}

/// Whether some byte of `bytes` cannot appear literally in a URI.
pub open spec fn needs_encoding(bytes: Seq<u8>) -> bool {
    exists|i: int| 0 <= i < bytes.len() && must_encode(bytes[i])
}

/// Whether a byte cannot appear literally in a URI reference.
fn must_encode_byte(b: u8) -> (r: bool)
    ensures
        r == must_encode(b),
{
    b <= 0x20 || b >= 0x7F || b == 0x22 || b == 0x3C || b == 0x3E || b == 0x5C || b == 0x5E || b
        == 0x60 || b == 0x7B || b == 0x7C || b == 0x7D
}

/// The upper-case hexadecimal digit for `n`.
fn hex_char(n: u8) -> (r: char)
    requires
        n < 16,
    ensures
        r == hex_digit(n),
{
    if n < 10 {
        (n + 48) as char
    } else {
        (n + 55) as char
    }
}

/// Percent-encode the bytes that cannot appear literally in a URI reference.
///
/// A raw CR, LF, space or angle bracket is not a URI to be rejected but one
/// that has not been encoded yet, and encoding it is what RFC 3986 requires;
/// it also makes header injection impossible. Non-ASCII text travels as
/// percent-encoded UTF-8. `%` and every delimiter a URI needs are kept, so an
/// already-encoded URI passes through unchanged.
pub fn encode_target(uri: &str) -> (r: String)
    ensures
        r@ == encode_bytes(utf8_bytes(uri)),
{
    let bytes = uri.as_bytes();
    let mut out = String::new();
    for i in 0..bytes.len()
        invariant
            bytes@ == utf8_bytes(uri),
            out@ == encode_bytes(bytes@.take(i as int)),
    {
        let b = bytes[i];
        let ghost before = out@;
        assert(bytes@.take(i + 1).drop_last() =~= bytes@.take(i as int));
        assert(bytes@.take(i + 1).last() == b);
        if must_encode_byte(b) {
            push_char(&mut out, '%');
            push_char(&mut out, hex_char(b / 16));
            push_char(&mut out, hex_char(b % 16));
        } else {
            push_char(&mut out, b as char);
        }
        assert(out@ =~= before + encode_byte(b));
    }
    assert(bytes@.take(bytes@.len() as int) =~= bytes@);
    out
}

/// The characters that follow the target in a header value:
/// `>; rel="c2pa-manifest"`.
pub open spec fn link_suffix() -> Seq<char> {
    seq!['>', ';', ' ', 'r', 'e', 'l', '=', '"'] + rel_chars() + seq!['"']
}

/// The `Link` header value advertising `target` as the Manifest Store.
pub open spec fn header_for(target: Seq<char>) -> Seq<char> {
    seq!['<'] + target + link_suffix()
}

/// Appends the characters that follow the target in a header value.
fn push_link_suffix(s: &mut String)
    ensures
        final(s)@ == old(s)@ + link_suffix(),
{
    let suffix: [char; 22] = [
        '>', ';', ' ', 'r', 'e', 'l', '=', '"', 'c', '2', 'p', 'a', '-', 'm', 'a', 'n', 'i', 'f',
        'e', 's', 't', '"',
    ];
    assert(suffix@ =~= link_suffix());
    for i in 0..22
        invariant
            suffix@ == link_suffix(),
            s@ == old(s)@ + suffix@.take(i as int),
    {
        push_char(s, suffix[i]);
        assert(suffix@.take(i + 1) =~= suffix@.take(i as int).push(suffix@[i as int]));
    }
    assert(suffix@.take(22) =~= suffix@);
}

/// Build a `Link` header value advertising `uri` as the C2PA Manifest Store.
///
/// The target is percent-encoded by [`encode_target`], so any input yields a
/// well-formed, injection-free header. Only an empty target is an error: there
/// is nothing to advertise. [`extract`] reads back the encoded form, which is
/// the URI a validator will fetch.
pub fn format(uri: &str) -> (r: Result<String, Error>)
    ensures
        uri@.len() == 0 ==> r == Err::<String, Error>(Error::Malformed("target URI is empty")),
        uri@.len() > 0 ==> (r matches Ok(h) && h@ == header_for(encode_bytes(utf8_bytes(uri)))),
{
    if uri.is_empty() {
        return Err(Error::Malformed("target URI is empty"));
    }
    let target = encode_target(uri);
    let mut out = String::new();
    push_char(&mut out, '<');
    out.append(target.as_str());
    push_link_suffix(&mut out);
    assert(out@ =~= header_for(encode_bytes(utf8_bytes(uri))));
    Ok(out)
}

/// As [`format`], but fails rather than repairing a target that is not already
/// a valid URI reference.
///
/// Useful where the target comes from configuration: a stray space in a
/// deployment variable becomes an error at startup rather than a silent `%20`
/// and a 404 at validation time.
pub fn format_strict(uri: &str) -> (r: Result<String, Error>)
    ensures
        uri@.len() == 0 ==> r == Err::<String, Error>(Error::Malformed("target URI is empty")),
        uri@.len() > 0 && needs_encoding(utf8_bytes(uri)) ==> r == Err::<String, Error>(
            Error::Malformed("target URI contains characters that a URI must percent-encode"),
        ),
        uri@.len() > 0 && !needs_encoding(utf8_bytes(uri)) ==> (r matches Ok(h) && h@
            == header_for(uri@)),
{
    if uri.is_empty() {
        return Err(Error::Malformed("target URI is empty"));
    }
    let bytes = uri.as_bytes();
    for i in 0..bytes.len()
        invariant
            bytes@ == utf8_bytes(uri),
            forall|j: int| 0 <= j < i ==> !must_encode(bytes@[j]),
    {
        if must_encode_byte(bytes[i]) {
            return Err(
                Error::Malformed("target URI contains characters that a URI must percent-encode"),
            );
        }
    }
    let mut out = String::new();
    push_char(&mut out, '<');
    out.append(uri);
    push_link_suffix(&mut out);
    assert(out@ =~= header_for(uri@));
    Ok(out)
}

} // verus!
