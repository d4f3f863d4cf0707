//! Byte offsets of characters in a UTF-8 text: token spans count bytes, as
//! slicing a `str` does.
use vstd::prelude::*;
use vstd::utf8::{char_is_scalar, encode_scalar, encode_utf8, has_width_1_encoding, has_width_2_encoding, has_width_3_encoding};

verus! {

/// The number of bytes of the UTF-8 encoding of `c`.
pub open spec fn char_width(c: char) -> int {
    encode_scalar(c as u32).len() as int
}

/// The byte offset of the `k`-th character of `s`: the length of the UTF-8
/// encoding of the characters before it.
pub open spec fn byte_pos(s: Seq<char>, k: int) -> int {
    encode_utf8(s.take(k)).len() as int
}

/// The character whose byte offset in `s` is `b`.
pub open spec fn char_index(s: Seq<char>, b: int) -> int {
    choose|k: int| 0 <= k <= s.len() && byte_pos(s, k) == b
}

/// A character takes one to four bytes.
pub proof fn lemma_char_width(c: char)
    ensures
        1 <= char_width(c) <= 4,
        (c as u32) < 0x80 ==> char_width(c) == 1,
{
}

/// The encoding of two sequences joined is their encodings joined.
pub proof fn lemma_encode_concat(a: Seq<char>, b: Seq<char>)
    ensures
        encode_utf8(a + b) == encode_utf8(a) + encode_utf8(b),
    decreases a.len(),
{
    if a.len() == 0 {
        assert(a + b =~= b);
        assert(encode_utf8(a) =~= Seq::<u8>::empty());
        assert(encode_utf8(a) + encode_utf8(b) =~= encode_utf8(b));
    } else {
        assert((a + b).drop_first() =~= a.drop_first() + b);
        assert((a + b)[0] == a[0]);
        lemma_encode_concat(a.drop_first(), b);
        assert(encode_utf8(a + b) =~= encode_utf8(a) + encode_utf8(b));
    }
}

/// Each character moves the byte offset on by its width.
pub proof fn lemma_byte_pos_step(s: Seq<char>, k: int)
    requires
        0 <= k < s.len(),
    ensures
        byte_pos(s, k + 1) == byte_pos(s, k) + char_width(s[k]),
{
    assert(s.take(k + 1) =~= s.take(k) + seq![s[k]]);
    lemma_encode_concat(s.take(k), seq![s[k]]);
    assert(seq![s[k]].drop_first() =~= Seq::<char>::empty());
    assert(encode_utf8(seq![s[k]]) =~= encode_scalar(s[k] as u32) + encode_utf8(Seq::<char>::empty()));
}

/// Byte offsets grow strictly with the character index, and end at the
/// length of the encoding of the whole text.
pub proof fn lemma_byte_pos_strict(s: Seq<char>, i: int, j: int)
    requires
        0 <= i <= j <= s.len(),
    ensures
        byte_pos(s, i) <= byte_pos(s, j) <= encode_utf8(s).len(),
        i < j ==> byte_pos(s, i) < byte_pos(s, j),
        byte_pos(s, 0) == 0,
    decreases j - i,
{
    assert(s.take(0) =~= Seq::<char>::empty());
    if i < j {
        lemma_byte_pos_strict(s, i + 1, j);
        lemma_byte_pos_step(s, i);
        lemma_char_width(s[i]);
    } else {
        assert(s.take(j) + s.skip(j) =~= s);
        lemma_encode_concat(s.take(j), s.skip(j));
    }
}

/// Each byte offset belongs to exactly one character index.
pub proof fn lemma_char_index(s: Seq<char>, k: int)
    requires
        0 <= k <= s.len(),
    ensures
        char_index(s, byte_pos(s, k)) == k,
{
    let c = char_index(s, byte_pos(s, k));
    assert(0 <= c <= s.len() && byte_pos(s, c) == byte_pos(s, k));
    if c < k {
        lemma_byte_pos_strict(s, c, k);
    } else if k < c {
        lemma_byte_pos_strict(s, k, c);
    }
}

/// The number of bytes of the UTF-8 encoding of `c`, as `char::len_utf8`
/// gives it.
pub(crate) fn utf8_width(c: char) -> (r: usize)
    ensures
        r == char_width(c),
{
    proof {
        char_is_scalar(c);
    }
    let u = c as u32;
    if u < 0x80 {
        assert(has_width_1_encoding(u));
        1
    } else if u < 0x800 {
        assert(has_width_2_encoding(u));
        2
    } else if u < 0x10000 {
        assert(has_width_3_encoding(u));
        3
    } else {
        4
    }
}

/// The byte offset of every character of `s`, and of its end.
pub(crate) fn byte_offsets(source: &str, s: &Vec<char>) -> (r: Vec<usize>)
    requires
        s@ == source@,
    ensures
        r@.len() == s@.len() + 1,
        forall|k: int| 0 <= k <= s@.len() ==> #[trigger] r@[k] as int == byte_pos(s@, k),
{
    let total = source.as_bytes().len();
    let mut r: Vec<usize> = Vec::new();
    let mut acc: usize = 0;
    let mut k: usize = 0;
    proof {
        lemma_byte_pos_strict(s@, 0, 0);
    }
    while k < s.len()
        invariant
            s@ == source@,
            total == encode_utf8(source@).len(),
            k <= s@.len(),
            r@.len() == k,
            acc == byte_pos(s@, k as int),
            forall|i: int| 0 <= i < k ==> #[trigger] r@[i] as int == byte_pos(s@, i),
        decreases s@.len() - k,
    {
        r.push(acc);
        proof {
            lemma_byte_pos_step(s@, k as int);
            lemma_byte_pos_strict(s@, k + 1, s@.len() as int);
        }
        acc = acc + utf8_width(s[k]);
        k = k + 1;
    }
    r.push(acc);
    r
}

} // verus!
