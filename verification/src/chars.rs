//! Character classes and small string helpers.
use vstd::prelude::*;

verus! {

/// Whether `c` is an ASCII decimal digit.
pub open spec fn is_digit(c: char) -> bool {
    '0' <= c && c <= '9'
}

/// Executable test for an ASCII decimal digit.
pub fn digit(c: char) -> (r: bool)
    ensures
        r == is_digit(c),
{
    '0' <= c && c <= '9'
}

/// Whether `c` is an ASCII hexadecimal digit.
pub open spec fn is_hex_digit(c: char) -> bool {
    is_digit(c) || ('a' <= c && c <= 'f') || ('A' <= c && c <= 'F')
}

/// Executable test for an ASCII hexadecimal digit.
pub fn hex_digit(c: char) -> (r: bool)
    ensures
        r == is_hex_digit(c),
{
    digit(c) || ('a' <= c && c <= 'f') || ('A' <= c && c <= 'F')
}

/// Whether `c` is an ASCII letter or digit.
pub open spec fn is_ascii_alphanumeric(c: char) -> bool {
    is_digit(c) || ('a' <= c && c <= 'z') || ('A' <= c && c <= 'Z')
}

/// The Unicode `White_Space` property of a character beyond ASCII: next
/// line (U+0085), no-break space (U+00A0), Ogham space mark (U+1680), the
/// spaces U+2000 to U+200A, line and paragraph separators (U+2028, U+2029),
/// narrow no-break space (U+202F), medium mathematical space (U+205F) and
/// ideographic space (U+3000).
pub open spec fn unicode_white_space(c: char) -> bool {
    let u = c as u32;
    u == 0x85 || u == 0xA0 || u == 0x1680 || (0x2000 <= u && u <= 0x200A) || u == 0x2028 || u
        == 0x2029 || u == 0x202F || u == 0x205F || u == 0x3000
}

/// The Unicode `Alphabetic` or `Numeric` property of a character beyond
/// ASCII, as `char::is_alphanumeric` reports it.
pub uninterp spec fn unicode_alphanumeric(c: char) -> bool;

/// Whether `c` is one of the ASCII white space characters: space, and the
/// control characters from tab to carriage return.
pub open spec fn is_ascii_white_space(c: char) -> bool {
    c == ' ' || ('\t' <= c && c <= '\r')
}

/// Whether `c` is white space, Unicode's `White_Space` property: on ASCII,
/// space and the characters from tab to carriage return; beyond it, the
/// characters of `unicode_white_space`.
pub open spec fn white_space(c: char) -> bool {
    if (c as u32) < 128 {
        is_ascii_white_space(c)
    } else {
        unicode_white_space(c)
    }
}

/// Whether `c` is a letter or digit: on ASCII, `a`-`z`, `A`-`Z` and `0`-`9`;
/// beyond it, Unicode's `Alphabetic` or `Numeric` property.
pub open spec fn alphanumeric(c: char) -> bool {
    if (c as u32) < 128 {
        is_ascii_alphanumeric(c)
    } else {
        unicode_alphanumeric(c)
    }
}

/// Whether `c` is white space, as `char::is_whitespace` decides it: Unicode's
/// `White_Space` property (PropList.txt), which the few code points of
/// `white_space` make up.
pub(crate) fn is_white_space(c: char) -> (r: bool)
    ensures
        r == white_space(c),
{
    let u = c as u32;
    if u < 128 {
        c == ' ' || ('\t' <= c && c <= '\r')
    } else {
        u == 0x85 || u == 0xA0 || u == 0x1680 || (0x2000 <= u && u <= 0x200A) || u == 0x2028 || u
            == 0x2029 || u == 0x202F || u == 0x205F || u == 0x3000
    }
}

/// Calls `char::is_alphanumeric`, which its documentation defines as
/// `is_alphabetic() || is_numeric()`, Unicode's `Alphabetic` and `Numeric`
/// properties. Among ASCII characters they hold exactly for `a`-`z`, `A`-`Z`
/// and `0`-`9`, which the contract states; for other characters the result
/// is named `unicode_alphanumeric` and the properties' lists are left
/// unstated.
#[verifier::external_body]
pub(crate) fn is_alphanumeric(c: char) -> (r: bool)
    ensures
        r == alphanumeric(c),
        (c as u32) >= 128 ==> r == unicode_alphanumeric(c),
{
    c.is_alphanumeric()
}

/// A character that can be part of a bare (unquoted) token: a number or a
/// literal such as `true`.
pub open spec fn is_bareword_char(c: char) -> bool {
    alphanumeric(c) || c == '.' || c == '+' || c == '-'
}

/// Executable test of `is_bareword_char`.
pub fn bareword_char(c: char) -> (r: bool)
    ensures
        r == is_bareword_char(c),
{
    is_alphanumeric(c) || c == '.' || c == '+' || c == '-'
}

/// The length of `s` once trailing white space is removed.
pub open spec fn trim_end_len(s: Seq<char>) -> nat
    decreases s.len(),
{
    if s.len() == 0 {
        0
    } else if white_space(s.last()) {
        trim_end_len(s.drop_last())
    } else {
        s.len()
    }
}

/// `trim_end_len` is at most the length, and what it cuts off is white space.
pub proof fn lemma_trim_end_len(s: Seq<char>)
    ensures
        trim_end_len(s) <= s.len(),
        forall|i: int| trim_end_len(s) <= i < s.len() ==> white_space(#[trigger] s[i]),
        trim_end_len(s) > 0 ==> !white_space(s[trim_end_len(s) - 1]),
    decreases s.len(),
{
    if s.len() > 0 && white_space(s.last()) {
        lemma_trim_end_len(s.drop_last());
        assert forall|i: int| trim_end_len(s) <= i < s.len() implies white_space(
            #[trigger] s[i],
        ) by {
            if i < s.len() - 1 {
                assert(s[i] == s.drop_last()[i]);
            }
        }
    }
}

/// Computes `trim_end_len(s.take(n))`.
pub fn trimmed_len(s: &[char], n: usize) -> (r: usize)
    requires
        n <= s@.len(),
    ensures
        r == trim_end_len(s@.take(n as int)),
{
    let mut k = n;
    while k > 0 && is_white_space(s[k - 1])
        invariant
            k <= n <= s@.len(),
            trim_end_len(s@.take(n as int)) == trim_end_len(s@.take(k as int)),
        decreases k,
    {
        assert(s@.take(k - 1) =~= s@.take(k as int).drop_last());
        k = k - 1;
    }
    k
}

/// Whether every character of `s` is white space.
pub open spec fn all_white_space(s: Seq<char>) -> bool {
    forall|i: int| 0 <= i < s.len() ==> white_space(#[trigger] s[i])
}

/// The characters of a string, in order.
pub fn to_chars(s: &str) -> (v: Vec<char>)
    ensures
        v@ == s@,
{
    let mut v: Vec<char> = Vec::new();
    for c in it: s.chars()
        invariant
            v@ == it.seq().take(it.index() as int),
            it.seq() == s@,
    {
        v.push(c);
    }
    v
}

/// Calls `String::push`, which appends the given character to the end of
/// the string; the contract states exactly that.
#[verifier::external_body]
pub(crate) fn push_char(s: &mut String, c: char)
    ensures
        final(s)@ == old(s)@.push(c),
{
    s.push(c);
}

/// Appends the characters of `v` to `s`.
pub(crate) fn push_chars(s: &mut String, v: &[char])
    ensures
        final(s)@ == old(s)@ + v@,
{
    let ghost s0 = s@;
    let mut i: usize = 0;
    while i < v.len()
        invariant
            i <= v@.len(),
            s@ == s0 + v@.take(i as int),
        decreases v@.len() - i,
    {
        push_char(s, v[i]);
        assert(v@.take(i + 1) =~= v@.take(i as int).push(v@[i as int]));
        i = i + 1;
    }
    assert(v@.take(i as int) =~= v@);
}

/// A string holding the characters of `v`.
pub fn string_from_chars(v: &[char]) -> (s: String)
    ensures
        s@ == v@,
{
    let mut s = String::new();
    push_chars(&mut s, v);
    assert(s@ =~= v@);
    s
}

/// The decimal digit for `d`, which is below 10.
pub open spec fn digit_char(d: nat) -> char {
    (d + 48) as char
}

/// The decimal text of `n`, without leading zeros.
pub open spec fn decimal_text(n: nat) -> Seq<char>
    decreases n,
{
    if n < 10 {
        seq![digit_char(n)]
    } else {
        decimal_text(n / 10).push(digit_char(n % 10))
    }
}

/// Appends the decimal text of `n`.
pub fn push_decimal(out: &mut String, n: usize)
    ensures
        final(out)@ == old(out)@ + decimal_text(n as nat),
    decreases n,
{
    let ghost o = out@;
    if n >= 10 {
        push_decimal(out, n / 10);
    }
    let d = (n % 10) as u8;
    let c = (48 + d) as char;
    assert(c == digit_char((n % 10) as nat));
    push_char(out, c);
    assert(out@ =~= o + decimal_text(n as nat));
}

/// Whether `a` and `b` hold the same characters.
pub fn same_chars(a: &[char], b: &[char]) -> (r: bool)
    ensures
        r == (a@ == b@),
{
    if a.len() != b.len() {
        return false;
    }
    let mut i: usize = 0;
    while i < a.len()
        invariant
            i <= a@.len() == b@.len(),
            forall|j: int| 0 <= j < i ==> a@[j] == b@[j],
        decreases a@.len() - i,
    {
        if a[i] != b[i] {
            return false;
        }
        i = i + 1;
    }
    assert(a@ =~= b@);
    true
}

} // verus!
