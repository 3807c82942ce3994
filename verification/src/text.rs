//! Character-level helpers shared by the `Link` header parser and printer.
//!
//! A header value is handled as the sequence of its characters. Every
//! delimiter of the grammar is ASCII, and in UTF-8 an ASCII byte never occurs
//! inside the encoding of another character, so scanning characters finds
//! exactly the delimiters that scanning bytes would.
use vstd::prelude::*;

verus! {

/// Whether `c` has the Unicode `White_Space` property, which is what
/// `char::is_whitespace` and `str::trim` go by.
pub open spec fn is_white_space(c: char) -> bool {
    let u = c as u32;
    ||| 0x09 <= u <= 0x0D
    ||| u == 0x20
    ||| u == 0x85
    ||| u == 0xA0
    ||| u == 0x1680
    ||| 0x2000 <= u <= 0x200A
    ||| u == 0x2028
    ||| u == 0x2029
    ||| u == 0x202F
    ||| u == 0x205F
    ||| u == 0x3000
}

/// The UTF-8 encoding of `s`: the bytes that `str::as_bytes` returns.
pub open spec fn utf8_bytes(s: &str) -> Seq<u8> {
    vstd::utf8::encode_utf8(s@)
}

/// Whether `c` is ASCII whitespace in the sense of `char::is_ascii_whitespace`:
/// space, tab, line feed, form feed or carriage return.
pub open spec fn is_ascii_space(c: char) -> bool {
    c == ' ' || c == '\t' || c == '\n' || c == '\x0C' || c == '\r'
}

/// `c` with an ASCII upper-case letter mapped to lower case.
pub open spec fn ascii_lower(c: char) -> char {
    if 'A' <= c <= 'Z' {
        ((c as u32) + 32) as char
    } else {
        c
    }
}

/// `s` with every ASCII upper-case letter mapped to lower case.
pub open spec fn lower_all(s: Seq<char>) -> Seq<char> {
    s.map_values(|c: char| ascii_lower(c))
}

/// Whether `a` and `b` are equal when ASCII letters are compared without case.
pub open spec fn eq_ignore_ascii_case(a: Seq<char>, b: Seq<char>) -> bool {
    a.len() == b.len() && forall|i: int| 0 <= i < a.len() ==> ascii_lower(a[i]) == ascii_lower(b[i])
}

/// `s` without its leading whitespace.
pub open spec fn trim_start(s: Seq<char>) -> Seq<char>
    decreases s.len(),
{
    if s.len() > 0 && is_white_space(s[0]) {
        trim_start(s.drop_first())
    } else {
        s
    }
}

/// `s` without its trailing whitespace.
pub open spec fn trim_end(s: Seq<char>) -> Seq<char>
    decreases s.len(),
{
    if s.len() > 0 && is_white_space(s.last()) {
        trim_end(s.drop_last())
    } else {
        s
    }
}

/// `s` without leading and trailing whitespace, as `str::trim` leaves it.
pub open spec fn trim(s: Seq<char>) -> Seq<char> {
    trim_end(trim_start(s))
}

/// The position of the first occurrence of `c` in `s`, if there is one.
pub open spec fn first_index(s: Seq<char>, c: char) -> Option<int>
    decreases s.len(),
{
    if s.len() == 0 {
        None
    } else if s[0] == c {
        Some(0)
    } else {
        match first_index(s.drop_first(), c) {
            Some(i) => Some(i + 1),
            None => None,
        }
    }
}

/// What `first_index` is: the least position holding `c`, or `None` when no
/// position does.
pub proof fn lemma_first_index(s: Seq<char>, c: char)
    ensures
        first_index(s, c) matches Some(i) ==> 0 <= i < s.len() && s[i] == c && forall|j: int|
            0 <= j < i ==> s[j] != c,
        first_index(s, c) is None ==> forall|j: int| 0 <= j < s.len() ==> s[j] != c,
    decreases s.len(),
{
    if s.len() > 0 && s[0] != c {
        lemma_first_index(s.drop_first(), c);
        assert forall|j: int| 0 < j < s.len() implies s[j] == s.drop_first()[j - 1] by {}
    }
}

/// The converse direction: a position that holds `c` with no `c` before it is
/// what `first_index` returns.
pub proof fn lemma_first_index_at(s: Seq<char>, c: char, i: int)
    requires
        0 <= i < s.len(),
        s[i] == c,
        forall|j: int| 0 <= j < i ==> s[j] != c,
    ensures
        first_index(s, c) == Some(i),
{
    lemma_first_index(s, c);
    match first_index(s, c) {
        Some(k) => {
            if k < i {
                assert(s[k] == c);
            }
            if k > i {
                assert(s[i] != c);
            }
        },
        None => {
            assert(s[i] != c);
        },
    }
}

/// A `None` from `first_index` means that no position holds `c`, and back.
pub proof fn lemma_first_index_none(s: Seq<char>, c: char)
    requires
        forall|j: int| 0 <= j < s.len() ==> s[j] != c,
    ensures
        first_index(s, c) is None,
{
    lemma_first_index(s, c);
}

/// Appends one character to a `String`.
///
/// Calls `String::push`; the contract claims that the string's characters
/// afterwards are the old characters followed by `c`.
#[verifier::external_body]
pub(crate) fn push_char(s: &mut String, c: char)
    ensures
        final(s)@ == old(s)@.push(c),
{
    s.push(c);
}

/// The characters of `s`, in order.
pub fn to_chars(s: &str) -> (v: Vec<char>)
    ensures
        v@ == s@,
{
    let mut v: Vec<char> = Vec::new();
    for c in it: s.chars()
        invariant
            v@ == it.seq().take(it.index() as int),
            it.seq() == s@,
    {
        v.push(c);
    }
    v
}

/// A `String` holding exactly the characters of `v`.
pub fn from_chars(v: &[char]) -> (s: String)
    ensures
        s@ == v@,
{
    let mut s = String::new();
    for i in 0..v.len()
        invariant
            s@ == v@.take(i as int),
    {
        push_char(&mut s, v[i]);
        assert(v@.take(i + 1) =~= v@.take(i as int).push(v@[i as int]));
    }
    assert(v@.take(v.len() as int) =~= v@);
    s
}

/// A copy of `v[lo..hi]`.
pub fn copy_range(v: &[char], lo: usize, hi: usize) -> (r: Vec<char>)
    requires
        lo <= hi <= v@.len(),
    ensures
        r@ == v@.subrange(lo as int, hi as int),
{
    let mut r: Vec<char> = Vec::new();
    let mut i = lo;
    while i < hi
        invariant
            lo <= i <= hi <= v@.len(),
            r@ == v@.subrange(lo as int, i as int),
        decreases hi - i,
    {
        r.push(v[i]);
        assert(v@.subrange(lo as int, i + 1) =~= v@.subrange(lo as int, i as int).push(v@[i as int]));
        i += 1;
    }
    r
}

/// Appends the characters of `lit` to `out`.
pub fn push_all(out: &mut Vec<char>, lit: &[char])
    ensures
        final(out)@ == old(out)@ + lit@,
{
    for i in 0..lit.len()
        invariant
            out@ == old(out)@ + lit@.take(i as int),
    {
        out.push(lit[i]);
        assert(lit@.take(i + 1) =~= lit@.take(i as int).push(lit@[i as int]));
    }
    assert(lit@.take(lit.len() as int) =~= lit@);
}

/// Whether `c` has the Unicode `White_Space` property.
pub fn is_white_space_char(c: char) -> (r: bool)
    ensures
        r == is_white_space(c),
{
    let u = c as u32;
    (0x09 <= u && u <= 0x0D) || u == 0x20 || u == 0x85 || u == 0xA0 || u == 0x1680 || (0x2000
        <= u && u <= 0x200A) || u == 0x2028 || u == 0x2029 || u == 0x202F || u == 0x205F || u
        == 0x3000
}

/// Whether `c` is ASCII whitespace.
pub fn is_ascii_space_char(c: char) -> (r: bool)
    ensures
        r == is_ascii_space(c),
{
    c == ' ' || c == '\t' || c == '\n' || c == '\x0C' || c == '\r'
}

/// `c` with an ASCII upper-case letter mapped to lower case.
pub fn ascii_lower_char(c: char) -> (r: char)
    ensures
        r == ascii_lower(c),
{
    if 'A' <= c && c <= 'Z' {
        let b: u8 = (c as u8) + 32;
        b as char
    } else {
        c
    }
}

} // verus!

verus! {

/// The bounds of `v[lo..hi]` once leading and trailing whitespace is removed.
pub fn trim_range(v: &[char], lo: usize, hi: usize) -> (r: (usize, usize))
    requires
        lo <= hi <= v@.len(),
    ensures
        lo <= r.0 <= r.1 <= hi,
        v@.subrange(r.0 as int, r.1 as int) == trim(v@.subrange(lo as int, hi as int)),
{
    let ghost whole = v@.subrange(lo as int, hi as int);
    let mut a = lo;
    while a < hi && is_white_space_char(v[a])
        invariant
            lo <= a <= hi <= v@.len(),
            whole == v@.subrange(lo as int, hi as int),
            trim_start(whole) == trim_start(v@.subrange(a as int, hi as int)),
        decreases hi - a,
    {
        assert(v@.subrange(a as int, hi as int).drop_first() =~= v@.subrange(a + 1, hi as int));
        a += 1;
    }
    assert(trim_start(v@.subrange(a as int, hi as int)) == v@.subrange(a as int, hi as int)) by {
        if a < hi {
            assert(v@.subrange(a as int, hi as int)[0] == v@[a as int]);
        }
    }
    let mut b = hi;
    while b > a && is_white_space_char(v[b - 1])
        invariant
            lo <= a <= b <= hi <= v@.len(),
            trim_end(v@.subrange(a as int, hi as int)) == trim_end(v@.subrange(a as int, b as int)),
        decreases b - a,
    {
        assert(v@.subrange(a as int, b as int).drop_last() =~= v@.subrange(a as int, b - 1));
        b -= 1;
    }
    assert(trim_end(v@.subrange(a as int, b as int)) == v@.subrange(a as int, b as int)) by {
        if a < b {
            assert(v@.subrange(a as int, b as int).last() == v@[b - 1]);
        }
    }
    (a, b)
}

/// The position of the first `c` in `v[lo..hi]`, counted from the start of `v`.
pub fn find_char(v: &[char], lo: usize, hi: usize, c: char) -> (r: Option<usize>)
    requires
        lo <= hi <= v@.len(),
    ensures
        match r {
            Some(i) => lo <= i < hi && first_index(v@.subrange(lo as int, hi as int), c) == Some(
                i - lo,
            ),
            None => first_index(v@.subrange(lo as int, hi as int), c) is None,
        },
{
    let ghost sub = v@.subrange(lo as int, hi as int);
    let mut i = lo;
    while i < hi
        invariant
            lo <= i <= hi <= v@.len(),
            sub == v@.subrange(lo as int, hi as int),
            forall|j: int| 0 <= j < i - lo ==> sub[j] != c,
        decreases hi - i,
    {
        if v[i] == c {
            proof {
                lemma_first_index_at(sub, c, i - lo);
            }
            return Some(i);
        }
        i += 1;
    }
    proof {
        lemma_first_index_none(sub, c);
    }
    None
}

/// Whether `v[start..]` begins with `lit`, comparing ASCII letters without case.
pub fn starts_with_ignore_case(v: &[char], start: usize, lit: &[char]) -> (r: bool)
    requires
        start <= v@.len(),
    ensures
        r == (start + lit@.len() <= v@.len() && eq_ignore_ascii_case(
            v@.subrange(start as int, start + lit@.len()),
            lit@,
        )),
{
    if lit.len() > v.len() - start {
        return false;
    }
    let n = lit.len();
    let ghost sub = v@.subrange(start as int, start + n);
    let mut k: usize = 0;
    while k < n
        invariant
            n == lit@.len(),
            k <= n,
            start + n <= v.len(),
            sub == v@.subrange(start as int, start + n),
            forall|j: int| 0 <= j < k ==> ascii_lower(sub[j]) == ascii_lower(lit@[j]),
        decreases n - k,
    {
        if ascii_lower_char(v[start + k]) != ascii_lower_char(lit[k]) {
            assert(ascii_lower(sub[k as int]) != ascii_lower(lit@[k as int]));
            return false;
        }
        k += 1;
    }
    true
}

/// `v` with every ASCII upper-case letter mapped to lower case.
pub fn lower_copy(v: &[char]) -> (r: Vec<char>)
    ensures
        r@ == lower_all(v@),
{
    let mut r: Vec<char> = Vec::new();
    for i in 0..v.len()
        invariant
            r@ == lower_all(v@.take(i as int)),
    {
        r.push(ascii_lower_char(v[i]));
        assert(lower_all(v@.take(i + 1)) =~= lower_all(v@.take(i as int)).push(ascii_lower(v@[i as int])));
    }
    assert(v@.take(v.len() as int) =~= v@);
    r
}

/// Whether two character sequences are equal.
pub fn chars_equal(a: &[char], b: &[char]) -> (r: bool)
    ensures
        r == (a@ == b@),
{
    if a.len() != b.len() {
        return false;
    }
    for i in 0..a.len()
        invariant
            a@.len() == b@.len(),
            forall|j: int| 0 <= j < i ==> a@[j] == b@[j],
    {
        if a[i] != b[i] {
            return false;
        }
    }
    assert(a@ =~= b@);
    true
}

/// The UTF-8 encoding of ASCII characters is their codes, one byte each.
pub proof fn lemma_utf8_of_ascii(cs: Seq<char>)
    requires
        vstd::utf8::is_ascii_chars(cs),
    ensures
        vstd::utf8::encode_utf8(cs) == cs.map_values(|c: char| c as u8),
{
    vstd::utf8::is_ascii_chars_encode_utf8(cs);
    assert(vstd::utf8::encode_utf8(cs) =~= cs.map_values(|c: char| c as u8));
}

/// A character with a code below 0x80 is an ASCII character.
pub proof fn lemma_ascii_char(c: char)
    requires
        (c as u32) < 0x80,
    ensures
        '\0' <= c <= '\u{7f}',
{
}

/// The first byte of the UTF-8 encoding of a non-ASCII character is not ASCII.
pub proof fn lemma_leading_byte_not_ascii(c: char)
    requires
        (c as u32) >= 0x80,
    ensures
        vstd::utf8::encode_scalar(c as u32)[0] >= 0x80,
{
    let u = c as u32;
    vstd::utf8::char_is_scalar(c);
    if vstd::utf8::has_width_2_encoding(u) {
        let x = ((u >> 6) & 0x1F) as u8;
        assert(0xC0u8 | x >= 0x80) by (bit_vector);
    } else if vstd::utf8::has_width_3_encoding(u) {
        let x = ((u >> 12) & 0x0F) as u8;
        assert(0xE0u8 | x >= 0x80) by (bit_vector);
    } else {
        let x = ((u >> 18) & 0x7) as u8;
        assert(0xF0u8 | x >= 0x80) by (bit_vector);
    }
}

/// Characters whose UTF-8 encoding is all ASCII bytes are ASCII characters.
pub proof fn lemma_ascii_bytes_ascii_chars(cs: Seq<char>)
    requires
        forall|i: int|
            0 <= i < vstd::utf8::encode_utf8(cs).len() ==> #[trigger] vstd::utf8::encode_utf8(
                cs,
            )[i] < 0x80,
    ensures
        vstd::utf8::is_ascii_chars(cs),
    decreases cs.len(),
{
    if cs.len() > 0 {
        let head = vstd::utf8::encode_scalar(cs[0] as u32);
        let tail = vstd::utf8::encode_utf8(cs.drop_first());
        let all = vstd::utf8::encode_utf8(cs);
        assert(all == head + tail);
        vstd::utf8::char_is_scalar(cs[0]);
        assert(head.len() >= 1);
        if (cs[0] as u32) >= 0x80 {
            lemma_leading_byte_not_ascii(cs[0]);
            assert(all[0] == head[0]);
        }
        assert forall|i: int| 0 <= i < tail.len() implies #[trigger] tail[i] < 0x80 by {
            assert(all[head.len() + i] == tail[i]);
        }
        lemma_ascii_bytes_ascii_chars(cs.drop_first());
        assert forall|i: int| 0 <= i < cs.len() implies '\0' <= #[trigger] cs[i] <= '\u{7f}' by {
            if i > 0 {
                assert(cs[i] == cs.drop_first()[i - 1]);
            } else {
                lemma_ascii_char(cs[0]);
            }
        }
    }
}


/// The characters of bytes that are all ASCII, one per byte.
pub open spec fn ascii_text(bytes: Seq<u8>) -> Seq<char> {
    bytes.map_values(|b: u8| b as char)
}

/// A string whose UTF-8 encoding is all ASCII bytes is those bytes read as
/// characters.
pub proof fn lemma_ascii_str(s: &str)
    requires
        forall|i: int| 0 <= i < utf8_bytes(s).len() ==> #[trigger] utf8_bytes(s)[i] < 0x80,
    ensures
        s@ == ascii_text(utf8_bytes(s)),
{
    assert forall|i: int| 0 <= i < vstd::utf8::encode_utf8(s@).len() implies #[trigger] vstd::utf8::encode_utf8(s@)[i] < 0x80 by {
        assert(utf8_bytes(s)[i] < 0x80);
    }
    lemma_ascii_bytes_ascii_chars(s@);
    lemma_utf8_of_ascii(s@);
    assert forall|i: int| 0 <= i < s@.len() implies ((s@[i] as u8) as char) == s@[i] by {
        assert('\0' <= s@[i] <= '\u{7f}');
    }
    assert(s@ =~= ascii_text(utf8_bytes(s)));
}

} // verus!
