//! Text helpers: UTF-8 decoding, splitting at a delimiter, comparison and
//! decimal formatting of strings.
//!
//! The std string functions that vstd gives no specification are reached
//! through small wrappers below; each states what std documents of it.

use vstd::prelude::*;
use vstd::utf8::*;
use vstd::string::*;

verus! {

broadcast use vstd::utf8::encode_utf8_decode_utf8;

// ---------------------------------------------------------------------
// Specifications
// ---------------------------------------------------------------------

/// Index of the last occurrence of `d` in `s`, or -1 when there is none.
pub open spec fn last_index_of(s: Seq<char>, d: char) -> int
    decreases s.len(),
{
    if s.len() == 0 {
        -1
    } else if s.last() == d {
        s.len() - 1
    } else {
        last_index_of(s.drop_last(), d)
    }
}

/// Index of the first occurrence of `d` in `s`, or -1 when there is none.
pub open spec fn first_index_of(s: Seq<char>, d: char) -> int
    decreases s.len(),
{
    if s.len() == 0 {
        -1
    } else if s[0] == d {
        0
    } else if first_index_of(s.drop_first(), d) < 0 {
        -1
    } else {
        first_index_of(s.drop_first(), d) + 1
    }
}

/// `s` split around the last `d`: the text before it and the text after it.
pub open spec fn rsplit_once_spec(s: Seq<char>, d: char) -> Option<(Seq<char>, Seq<char>)> {
    let i = last_index_of(s, d);
    if i < 0 {
        None
    } else {
        Some((s.subrange(0, i), s.subrange(i + 1, s.len() as int)))
    }
}

/// `s` split around the first `d`: the text before it and the text after it.
pub open spec fn split_once_spec(s: Seq<char>, d: char) -> Option<(Seq<char>, Seq<char>)> {
    let i = first_index_of(s, d);
    if i < 0 {
        None
    } else {
        Some((s.subrange(0, i), s.subrange(i + 1, s.len() as int)))
    }
}

/// What `last_index_of` finds: `d` itself, with no `d` after it.
pub proof fn lemma_last_index_of(s: Seq<char>, d: char)
    ensures
        -1 <= last_index_of(s, d) < s.len(),
        last_index_of(s, d) >= 0 ==> s[last_index_of(s, d)] == d,
        forall|j: int| last_index_of(s, d) < j < s.len() ==> s[j] != d,
    decreases s.len(),
{
    if s.len() > 0 && s.last() != d {
        lemma_last_index_of(s.drop_last(), d);
        assert forall|j: int| last_index_of(s, d) < j < s.len() implies s[j] != d by {
            if j < s.len() - 1 {
                assert(s.drop_last()[j] == s[j]);
            }
        }
    }
}

/// Byte-wise lexicographic order, the order of Rust's `str` comparison.
pub open spec fn lex_lt(a: Seq<u8>, b: Seq<u8>) -> bool
    decreases a.len(),
{
    if a.len() == 0 {
        b.len() > 0
    } else if b.len() == 0 {
        false
    } else if a[0] != b[0] {
        a[0] < b[0]
    } else {
        lex_lt(a.drop_first(), b.drop_first())
    }
}

pub proof fn lemma_lex_irreflexive(a: Seq<u8>)
    ensures
        !lex_lt(a, a),
    decreases a.len(),
{
    if a.len() > 0 {
        lemma_lex_irreflexive(a.drop_first());
    }
}

pub proof fn lemma_lex_asymmetric(a: Seq<u8>, b: Seq<u8>)
    ensures
        !(lex_lt(a, b) && lex_lt(b, a)),
    decreases a.len(),
{
    if a.len() > 0 && b.len() > 0 && a[0] == b[0] {
        lemma_lex_asymmetric(a.drop_first(), b.drop_first());
    }
}

pub proof fn lemma_lex_transitive(a: Seq<u8>, b: Seq<u8>, c: Seq<u8>)
    requires
        lex_lt(a, b),
        lex_lt(b, c),
    ensures
        lex_lt(a, c),
    decreases a.len(),
{
    if a.len() > 0 && b.len() > 0 && c.len() > 0 && a[0] == b[0] && b[0] == c[0] {
        lemma_lex_transitive(a.drop_first(), b.drop_first(), c.drop_first());
    }
}

pub proof fn lemma_lex_total(a: Seq<u8>, b: Seq<u8>)
    requires
        a != b,
    ensures
        lex_lt(a, b) || lex_lt(b, a),
    decreases a.len(),
{
    if a.len() == 0 && b.len() == 0 {
        assert(a =~= b);
    }
    if a.len() > 0 && b.len() > 0 && a[0] == b[0] {
        if a.drop_first() =~= b.drop_first() {
            assert forall|i: int| 0 <= i < a.len() implies a[i] == b[i] by {
                if i > 0 {
                    assert(a[i] == a.drop_first()[i - 1]);
                    assert(b[i] == b.drop_first()[i - 1]);
                }
            }
            assert(a =~= b);
        } else {
            lemma_lex_total(a.drop_first(), b.drop_first());
        }
    }
}

/// The UTF-8 bytes of a text.
pub open spec fn utf8_of(s: Seq<char>) -> Seq<u8> {
    encode_utf8(s)
}

/// Texts are equal exactly when their UTF-8 encodings are.
pub proof fn lemma_utf8_injective(a: Seq<char>, b: Seq<char>)
    ensures
        (utf8_of(a) == utf8_of(b)) == (a == b),
{
    if utf8_of(a) == utf8_of(b) {
        assert(decode_utf8(encode_utf8(a)) == a);
        assert(decode_utf8(encode_utf8(b)) == b);
    }
}

/// Text order: byte-wise order of the UTF-8 encodings.
pub open spec fn text_lt(a: Seq<char>, b: Seq<char>) -> bool {
    lex_lt(utf8_of(a), utf8_of(b))
}

// ---------------------------------------------------------------------
// Decimal numerals
// ---------------------------------------------------------------------

/// The decimal digit character for `d` in `0..10`.
pub open spec fn digit_char(d: nat) -> char {
    if d == 0 {
        '0'
    } else if d == 1 {
        '1'
    } else if d == 2 {
        '2'
    } else if d == 3 {
        '3'
    } else if d == 4 {
        '4'
    } else if d == 5 {
        '5'
    } else if d == 6 {
        '6'
    } else if d == 7 {
        '7'
    } else if d == 8 {
        '8'
    } else {
        '9'
    }
}

/// The value of a decimal digit character, or `None` for any other character.
pub open spec fn digit_value(c: char) -> Option<nat> {
    if c == '0' {
        Some(0)
    } else if c == '1' {
        Some(1)
    } else if c == '2' {
        Some(2)
    } else if c == '3' {
        Some(3)
    } else if c == '4' {
        Some(4)
    } else if c == '5' {
        Some(5)
    } else if c == '6' {
        Some(6)
    } else if c == '7' {
        Some(7)
    } else if c == '8' {
        Some(8)
    } else if c == '9' {
        Some(9)
    } else {
        None
    }
}

/// Decimal representation of `n` without leading zeros ("0" for zero).
pub open spec fn decimal(n: nat) -> Seq<char>
    decreases n,
{
    if n < 10 {
        seq![digit_char(n)]
    } else {
        decimal(n / 10).push(digit_char(n % 10))
    }
}

/// `n` in decimal, left-padded with zeros to at least `width` digits.
pub open spec fn decimal_padded(n: nat, width: nat) -> Seq<char> {
    let d = decimal(n);
    if d.len() >= width {
        d
    } else {
        Seq::new((width - d.len()) as nat, |_i: int| '0') + d
    }
}

/// The value of a non-empty all-digit text, or `None` when some character is
/// not a decimal digit or the text is empty.
pub open spec fn digits_value(s: Seq<char>) -> Option<nat>
    decreases s.len(),
{
    if s.len() == 0 {
        None
    } else if s.len() == 1 {
        digit_value(s[0])
    } else {
        match (digits_value(s.drop_last()), digit_value(s.last())) {
            (Some(h), Some(l)) => Some(h * 10 + l),
            _ => None,
        }
    }
}

/// What `str::parse::<u64>` accepts: an optional `+` followed by decimal digits
/// whose value fits in 64 bits.
pub open spec fn parse_u64_spec(s: Seq<char>) -> Option<u64> {
    let digits = if s.len() > 0 && s[0] == '+' {
        s.drop_first()
    } else {
        s
    };
    match digits_value(digits) {
        Some(v) => if v <= u64::MAX {
            Some(v as u64)
        } else {
            None
        },
        None => None,
    }
}

// ---------------------------------------------------------------------
// Wrappers of std string functions
// ---------------------------------------------------------------------

/// `std::str::from_utf8`: succeeds exactly on valid UTF-8, and the string it
/// returns has exactly those bytes.
#[verifier::external_body]
pub(crate) fn str_from_utf8(bytes: &[u8]) -> (r: Option<&str>)
    ensures
        r is Some <==> valid_utf8(bytes@),
        r matches Some(s) ==> s.spec_bytes() == bytes@,
{
    std::str::from_utf8(bytes).ok()
}

/// `str::rsplit_once` with a `char` pattern: the text before and after the
/// last occurrence of the delimiter, or `None` when it does not occur.
#[verifier::external_body]
pub(crate) fn str_rsplit_once(s: &str, d: char) -> (r: Option<(&str, &str)>)
    ensures
        match r {
            Some((a, b)) => rsplit_once_spec(s@, d) == Some((a@, b@)),
            None => rsplit_once_spec(s@, d) is None,
        },
{
    s.rsplit_once(d)
}

/// `str::split_once` with a `char` pattern: the text before and after the
/// first occurrence of the delimiter, or `None` when it does not occur.
#[verifier::external_body]
pub(crate) fn str_split_once(s: &str, d: char) -> (r: Option<(&str, &str)>)
    ensures
        match r {
            Some((a, b)) => split_once_spec(s@, d) == Some((a@, b@)),
            None => split_once_spec(s@, d) is None,
        },
{
    s.split_once(d)
}

/// `str::strip_prefix` with a `&str` pattern: the rest of `s` when it starts
/// with `p`.
#[verifier::external_body]
pub(crate) fn str_strip_prefix<'a>(s: &'a str, p: &str) -> (r: Option<&'a str>)
    ensures
        match r {
            Some(rest) => s@.len() >= p@.len() && s@.subrange(0, p@.len() as int) == p@ && rest@
                == s@.subrange(p@.len() as int, s@.len() as int),
            None => !(s@.len() >= p@.len() && s@.subrange(0, p@.len() as int) == p@),
        },
{
    s.strip_prefix(p)
}

/// `str::strip_suffix` with a `&str` pattern: the start of `s` when it ends
/// with `p`.
#[verifier::external_body]
pub(crate) fn str_strip_suffix<'a>(s: &'a str, p: &str) -> (r: Option<&'a str>)
    ensures
        match r {
            Some(rest) => s@.len() >= p@.len() && s@.subrange(s@.len() - p@.len(), s@.len() as int)
                == p@ && rest@ == s@.subrange(0, s@.len() - p@.len()),
            None => !(s@.len() >= p@.len() && s@.subrange(
                s@.len() - p@.len(),
                s@.len() as int,
            ) == p@),
        },
{
    s.strip_suffix(p)
}

/// `str::parse::<u64>`, with its error dropped: an optional `+` and decimal
/// digits whose value fits in a `u64`.
#[verifier::external_body]
pub(crate) fn str_parse_u64(s: &str) -> (r: Option<u64>)
    ensures
        r == parse_u64_spec(s@),
{
    s.parse::<u64>().ok()
}

/// `String::push`: appends one character.
#[verifier::external_body]
pub(crate) fn string_push(s: &mut String, c: char)
    ensures
        final(s)@ == old(s)@.push(c),
{
    s.push(c);
}

/// `String::push_str`: appends a text.
#[verifier::external_body]
pub(crate) fn string_push_str(s: &mut String, t: &str)
    ensures
        final(s)@ == old(s)@ + t@,
{
    s.push_str(t);
}

// ---------------------------------------------------------------------
// Verified helpers
// ---------------------------------------------------------------------

/// Whether two texts are equal.
pub fn str_eq(a: &str, b: &str) -> (r: bool)
    ensures
        r == (a@ == b@),
{
    let x = a.as_bytes();
    let y = b.as_bytes();
    proof {
        lemma_utf8_injective(a@, b@);
    }
    if x.len() != y.len() {
        return false;
    }
    let n = x.len();
    for i in 0..n
        invariant
            n == x@.len(),
            n == y@.len(),
            x@ == utf8_of(a@),
            y@ == utf8_of(b@),
            (x@ == y@) == (a@ == b@),
            forall|j: int| 0 <= j < i ==> x@[j] == y@[j],
    {
        if x[i] != y[i] {
            assert(x@[i as int] != y@[i as int]);
            assert(x@ != y@);
            return false;
        }
    }
    assert(x@ =~= y@);
    true
}

/// Whether `a` comes before `b` in byte-wise order.
pub fn bytes_lt(a: &[u8], b: &[u8]) -> (r: bool)
    ensures
        r == lex_lt(a@, b@),
{
    let n = a.len();
    let m = b.len();
    let mut i: usize = 0;
    assert(a@.skip(0) =~= a@);
    assert(b@.skip(0) =~= b@);
    while i < n && i < m
        invariant
            i <= n,
            i <= m,
            n == a@.len(),
            m == b@.len(),
            lex_lt(a@, b@) == lex_lt(a@.skip(i as int), b@.skip(i as int)),
        decreases n - i,
    {
        if a[i] != b[i] {
            assert(a@.skip(i as int)[0] == a@[i as int]);
            assert(b@.skip(i as int)[0] == b@[i as int]);
            return a[i] < b[i];
        }
        assert(a@.skip(i as int).drop_first() =~= a@.skip(i + 1));
        assert(b@.skip(i as int).drop_first() =~= b@.skip(i + 1));
        i = i + 1;
    }
    i < m
}

/// Whether text `a` comes before text `b` in the order of `str` comparison.
pub fn text_less(a: &str, b: &str) -> (r: bool)
    ensures
        r == text_lt(a@, b@),
{
    bytes_lt(a.as_bytes(), b.as_bytes())
}

/// The decimal digit character of `d`.
pub fn digit_to_char(d: u64) -> (c: char)
    requires
        d < 10,
    ensures
        c == digit_char(d as nat),
{
    if d == 0 {
        '0'
    } else if d == 1 {
        '1'
    } else if d == 2 {
        '2'
    } else if d == 3 {
        '3'
    } else if d == 4 {
        '4'
    } else if d == 5 {
        '5'
    } else if d == 6 {
        '6'
    } else if d == 7 {
        '7'
    } else if d == 8 {
        '8'
    } else {
        '9'
    }
}

/// The decimal representation of `n`, one character per digit.
pub fn decimal_chars(n: u64) -> (r: Vec<char>)
    ensures
        r@ == decimal(n as nat),
    decreases n,
{
    let mut r = if n >= 10 {
        decimal_chars(n / 10)
    } else {
        Vec::new()
    };
    r.push(digit_to_char(n % 10));
    assert(r@ =~= decimal(n as nat));
    r
}

/// Appends every character of `cs`.
pub fn push_chars(s: &mut String, cs: &Vec<char>)
    ensures
        final(s)@ == old(s)@ + cs@,
{
    let ghost start = s@;
    for i in 0..cs.len()
        invariant
            s@ == start + cs@.subrange(0, i as int),
    {
        string_push(s, cs[i]);
        assert(cs@.subrange(0, i + 1) =~= cs@.subrange(0, i as int).push(cs@[i as int]));
    }
    assert(cs@.subrange(0, cs@.len() as int) =~= cs@);
}

/// Appends the decimal representation of `n`.
pub fn push_decimal(s: &mut String, n: u64)
    ensures
        final(s)@ == old(s)@ + decimal(n as nat),
{
    let digits = decimal_chars(n);
    push_chars(s, &digits);
}

/// Appends `n` in decimal, left-padded with zeros to `width` digits.
pub fn push_decimal_padded(s: &mut String, n: u64, width: usize)
    ensures
        final(s)@ == old(s)@ + decimal_padded(n as nat, width as nat),
{
    let digits = decimal_chars(n);
    let len = digits.len();
    let ghost start = s@;
    if len < width {
        let pad = width - len;
        let mut i: usize = 0;
        while i < pad
            invariant
                i <= pad,
                s@ == start + Seq::new(i as nat, |_j: int| '0'),
            decreases pad - i,
        {
            string_push(s, '0');
            assert(s@ =~= start + Seq::new((i + 1) as nat, |_j: int| '0'));
            i = i + 1;
        }
    }
    let ghost mid = s@;
    push_chars(s, &digits);
    assert(s@ =~= start + decimal_padded(n as nat, width as nat));
}

} // verus!
