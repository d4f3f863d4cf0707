//! Splits a JSON text into tokens. The tokenizer moves through the
//! characters of its source; the spans of its tokens are byte offsets into
//! the source, as slicing a `str` counts.
use vstd::prelude::*;

use crate::chars::{bareword_char, is_bareword_char, is_white_space, to_chars, white_space};
use crate::offsets::{byte_offsets, byte_pos, char_index, lemma_byte_pos_strict, lemma_char_index};

verus! {

/// A range of byte offsets, `start` included and `end` excluded.
#[derive(Clone, Copy, Debug, PartialEq, Eq, Structural)]
pub struct Span {
    pub start: usize,
    pub end: usize,
}

/// A token and where it stands in the source.
#[derive(Clone, Copy, Debug, PartialEq, Eq, Structural)]
pub struct JsonToken {
    pub kind: JsonTokenKind,
    pub span: Span,
}

/// The kinds of token.
#[derive(Clone, Copy, Debug, PartialEq, Eq, Structural)]
pub enum JsonTokenKind {
    OpeningBrace,
    ClosingBrace,
    OpeningSquareBracket,
    ClosingSquareBracket,
    Comma,
    Colon,
    String,
    Number,
    Null,
}

/// The first position at or after `pos` that holds no white space (the
/// length of `s` when there is none).
pub open spec fn skip_white_space(s: Seq<char>, pos: int) -> int
    decreases s.len() - pos,
{
    if pos < 0 || pos >= s.len() {
        s.len() as int
    } else if white_space(s[pos]) {
        skip_white_space(s, pos + 1)
    } else {
        pos
    }
}

/// The position just past the quote that closes a string whose content
/// continues at `pos` (the length of `s` when it is not closed);
/// `escaped` tells whether the character at `pos` is escaped by a backslash.
pub open spec fn string_end(s: Seq<char>, pos: int, escaped: bool) -> int
    decreases s.len() - pos,
{
    if pos < 0 || pos >= s.len() {
        s.len() as int
    } else if s[pos] == '"' && !escaped {
        pos + 1
    } else {
        string_end(s, pos + 1, !escaped && s[pos] == '\\')
    }
}

/// The first position at or after `pos` that holds no bare-token character.
pub open spec fn bareword_end(s: Seq<char>, pos: int) -> int
    decreases s.len() - pos,
{
    if pos < 0 || pos >= s.len() {
        s.len() as int
    } else if is_bareword_char(s[pos]) {
        bareword_end(s, pos + 1)
    } else {
        pos
    }
}

/// The kind of a one-character token.
pub open spec fn punctuation_kind(c: char) -> Option<JsonTokenKind> {
    if c == '{' {
        Some(JsonTokenKind::OpeningBrace)
    } else if c == '}' {
        Some(JsonTokenKind::ClosingBrace)
    } else if c == '[' {
        Some(JsonTokenKind::OpeningSquareBracket)
    } else if c == ']' {
        Some(JsonTokenKind::ClosingSquareBracket)
    } else if c == ',' {
        Some(JsonTokenKind::Comma)
    } else if c == ':' {
        Some(JsonTokenKind::Colon)
    } else {
        None
    }
}

/// A token made of the characters `start..end` of `s`; its span holds their
/// byte offsets.
pub open spec fn token(s: Seq<char>, kind: JsonTokenKind, start: int, end: int) -> JsonToken {
    JsonToken {
        kind,
        span: Span { start: byte_pos(s, start) as usize, end: byte_pos(s, end) as usize },
    }
}

/// The next token after position `pos`, and the position after it. White
/// space is skipped; a `"` starts a string that runs to the next unescaped
/// quote; any other character starts a bare token (a number or a literal)
/// that runs while letters, digits, `.`, `+` and `-` follow.
pub open spec fn next_token(s: Seq<char>, pos: int) -> (Option<JsonToken>, int) {
    let i = skip_white_space(s, pos);
    if i >= s.len() {
        (None, s.len() as int)
    } else {
        let c = s[i];
        match punctuation_kind(c) {
            Some(k) => (Some(token(s, k, i, i + 1)), i + 1),
            None => if c == '"' {
                let e = string_end(s, i + 1, false);
                (Some(token(s, JsonTokenKind::String, i, e)), e)
            } else {
                let e = bareword_end(s, i + 1);
                (Some(token(s, JsonTokenKind::Number, i, e)), e)
            },
        }
    }
}

/// Facts about the scanning functions.
pub proof fn lemma_skip_white_space(s: Seq<char>, pos: int)
    requires
        0 <= pos <= s.len(),
    ensures
        pos <= skip_white_space(s, pos) <= s.len(),
        forall|k: int| pos <= k < skip_white_space(s, pos) ==> white_space(#[trigger] s[k]),
        skip_white_space(s, pos) < s.len() ==> !white_space(s[skip_white_space(s, pos)]),
    decreases s.len() - pos,
{
    if pos < s.len() && white_space(s[pos]) {
        lemma_skip_white_space(s, pos + 1);
    }
}

/// `string_end` stays within its bounds.
pub proof fn lemma_string_end(s: Seq<char>, pos: int, escaped: bool)
    requires
        0 <= pos <= s.len(),
    ensures
        pos <= string_end(s, pos, escaped) <= s.len(),
        pos < s.len() ==> pos < string_end(s, pos, escaped),
    decreases s.len() - pos,
{
    if pos < s.len() && !(s[pos] == '"' && !escaped) {
        lemma_string_end(s, pos + 1, !escaped && s[pos] == '\\');
    }
}

/// `bareword_end` stays within its bounds.
pub proof fn lemma_bareword_end(s: Seq<char>, pos: int)
    requires
        0 <= pos <= s.len(),
    ensures
        pos <= bareword_end(s, pos) <= s.len(),
    decreases s.len() - pos,
{
    if pos < s.len() && is_bareword_char(s[pos]) {
        lemma_bareword_end(s, pos + 1);
    }
}

/// A token is found exactly when non-white-space remains; the position then
/// moves past it, and the token is made of the characters from the first
/// one that is no white space up to the new position. With no token left,
/// the position moves to the end.
pub proof fn lemma_next_token_advances(s: Seq<char>, pos: int)
    requires
        0 <= pos <= s.len(),
    ensures
        pos <= next_token(s, pos).1 <= s.len(),
        next_token(s, pos).0 is Some ==> pos < next_token(s, pos).1,
        next_token(s, pos).0 matches Some(t) ==> (pos <= skip_white_space(s, pos) < next_token(
            s,
            pos,
        ).1 && t == token(s, t.kind, skip_white_space(s, pos), next_token(s, pos).1)),
        next_token(s, pos).0 is None ==> next_token(s, pos).1 == s.len(),
{
    lemma_skip_white_space(s, pos);
    let i = skip_white_space(s, pos);
    if i < s.len() {
        lemma_string_end(s, i + 1, false);
        lemma_bareword_end(s, i + 1);
    }
}

/// The tokens that reading from position `pos` gives until none is left,
/// each with the range of characters it is made of.
pub open spec fn token_run(s: Seq<char>, pos: int) -> Seq<(JsonToken, int, int)>
    decreases s.len() - pos,
    when 0 <= pos <= s.len()
{
    let (t, p) = next_token(s, pos);
    match t {
        None => seq![],
        Some(tok) => {
            proof {
                lemma_next_token_advances(s, pos);
            }
            seq![(tok, skip_white_space(s, pos), p)] + token_run(s, p)
        },
    }
}

/// Whether character `k` lies in one of the ranges of `r`.
pub open spec fn covered(r: Seq<(JsonToken, int, int)>, k: int) -> bool {
    exists|j: int| 0 <= j < r.len() && #[trigger] r[j].1 <= k && k < r[j].2
}

/// Each token of a run is made of its range of characters, and the ranges
/// follow one another.
pub proof fn lemma_token_run_ranges(s: Seq<char>, pos: int)
    requires
        0 <= pos <= s.len(),
    ensures
        forall|j: int|
            0 <= j < token_run(s, pos).len() ==> pos <= (#[trigger] token_run(s, pos)[j]).1
                < token_run(s, pos)[j].2 <= s.len() && token_run(s, pos)[j].0 == token(
                s,
                token_run(s, pos)[j].0.kind,
                token_run(s, pos)[j].1,
                token_run(s, pos)[j].2,
            ),
        forall|j: int|
            0 <= j < token_run(s, pos).len() - 1 ==> (#[trigger] token_run(s, pos)[j]).2
                <= token_run(s, pos)[j + 1].1,
    decreases s.len() - pos,
{
    lemma_next_token_advances(s, pos);
    let r = token_run(s, pos);
    let (t, p) = next_token(s, pos);
    if let Some(tok) = t {
        let rest = token_run(s, p);
        lemma_token_run_ranges(s, p);
        assert(r == seq![(tok, skip_white_space(s, pos), p)] + rest);
        assert forall|j: int| 0 <= j < r.len() implies pos <= (#[trigger] r[j]).1 < r[j].2
            <= s.len() && r[j].0 == token(s, r[j].0.kind, r[j].1, r[j].2) by {
            if j > 0 {
                assert(r[j] == rest[j - 1]);
            }
        }
        assert forall|j: int| 0 <= j < r.len() - 1 implies (#[trigger] r[j]).2 <= r[j + 1].1 by {
            assert(r[j + 1] == rest[j]);
            if j > 0 {
                assert(r[j] == rest[j - 1]);
            }
        }
    }
}

/// Only white space lies outside the tokens of a run.
pub proof fn lemma_token_run_gaps(s: Seq<char>, pos: int)
    requires
        0 <= pos <= s.len(),
    ensures
        forall|k: int|
            pos <= k < s.len() && !covered(token_run(s, pos), k) ==> white_space(#[trigger] s[k]),
    decreases s.len() - pos,
{
    lemma_next_token_advances(s, pos);
    lemma_skip_white_space(s, pos);
    let r = token_run(s, pos);
    let (t, p) = next_token(s, pos);
    let i = skip_white_space(s, pos);
    if let Some(tok) = t {
        let rest = token_run(s, p);
        lemma_token_run_gaps(s, p);
        assert(r == seq![(tok, i, p)] + rest);
        assert forall|k: int| pos <= k < s.len() && !covered(r, k) implies white_space(
            #[trigger] s[k],
        ) by {
            if k >= p {
                if covered(rest, k) {
                    let j = choose|j: int| 0 <= j < rest.len() && #[trigger] rest[j].1 <= k && k
                        < rest[j].2;
                    assert(r[j + 1] == rest[j]);
                    assert(r[j + 1].1 <= k);
                }
            } else if k >= i {
                assert(r[0].1 <= k);
            }
        }
    }
}

/// Reads tokens from a source text.
pub(crate) struct JsonTokenizer<'a> {
    pub(crate) source: &'a str,
    pub(crate) chars: Vec<char>,
    pub(crate) offsets: Vec<usize>,
    pub(crate) pos: usize,
}

impl<'a> JsonTokenizer<'a> {
    /// The tokenizer holds the characters of its source, the byte offset of
    /// each of them and of the end, and a position in the characters.
    pub(crate) open spec fn wf(&self) -> bool {
        &&& self.chars@ == self.source@
        &&& self.pos <= self.chars@.len()
        &&& self.chars@.len() <= usize::MAX
        &&& self.offsets@.len() == self.chars@.len() + 1
        &&& forall|k: int|
            0 <= k <= self.chars@.len() ==> #[trigger] self.offsets@[k] as int == byte_pos(
                self.chars@,
                k,
            )
    }

    /// A tokenizer at the start of `source`.
    pub(crate) fn new(source: &'a str) -> (r: Self)
        ensures
            r.wf(),
            r.source == source,
            r.pos == 0,
    {
        let chars = to_chars(source);
        let _n = chars.len();
        let offsets = byte_offsets(source, &chars);
        Self { source, chars, offsets, pos: 0 }
    }

    /// The character whose byte offset is `b`.
    pub(crate) fn char_index_of(&self, b: usize) -> (r: usize)
        requires
            self.wf(),
            exists|k: int| 0 <= k <= self.chars@.len() && #[trigger] byte_pos(self.chars@, k) == b,
        ensures
            r <= self.chars@.len(),
            r == char_index(self.chars@, b as int),
    {
        let ghost s = self.chars@;
        let ghost t = choose|k: int| 0 <= k <= s.len() && #[trigger] byte_pos(s, k) == b;
        let mut lo: usize = 0;
        let mut hi: usize = self.chars.len();
        while lo < hi
            invariant
                self.wf(),
                self.chars@ == s,
                0 <= t <= s.len(),
                byte_pos(s, t) == b,
                lo <= t <= hi <= s.len(),
            decreases hi - lo,
        {
            let mid = lo + (hi - lo) / 2;
            proof {
                if mid < t {
                    lemma_byte_pos_strict(s, mid as int, t);
                } else {
                    lemma_byte_pos_strict(s, t, mid as int);
                }
            }
            if self.offsets[mid] < b {
                lo = mid + 1;
            } else {
                hi = mid;
            }
        }
        proof {
            lemma_char_index(s, t);
        }
        lo
    }

    /// The source text of `token`, which is made of whole characters.
    pub(crate) fn span_source(&self, token: &JsonToken) -> (r: &'a str)
        requires
            self.wf(),
            exists|i: int, e: int|
                0 <= i <= e <= self.chars@.len() && #[trigger] crate::tokenizer::token(
                    self.chars@,
                    token.kind,
                    i,
                    e,
                )
                    == *token,
        ensures
            r@ == self.source@.subrange(
                char_index(self.chars@, token.span.start as int),
                char_index(self.chars@, token.span.end as int),
            ),
    {
        let ghost s = self.chars@;
        let ghost (i, e) = choose|i: int, e: int|
            0 <= i <= e <= s.len() && #[trigger] crate::tokenizer::token(s, token.kind, i, e) == *token;
        assert(self.offsets@[i] as int == byte_pos(s, i));
        assert(self.offsets@[e] as int == byte_pos(s, e));
        let start = self.char_index_of(token.span.start);
        let end = self.char_index_of(token.span.end);
        proof {
            lemma_char_index(s, i);
            lemma_char_index(s, e);
        }
        self.source.substring_char(start, end)
    }

    /// Moves past white space and the character after it, which it returns
    /// with its byte offset.
    fn skip_whitespace_and_next(&mut self) -> (r: Option<(usize, char)>)
        requires
            old(self).wf(),
        ensures
            final(self).wf(),
            final(self).source == old(self).source,
            final(self).chars == old(self).chars,
            final(self).offsets == old(self).offsets,
            skip_white_space(old(self).chars@, old(self).pos as int) >= old(self).chars@.len()
                ==> r is None && final(self).pos == old(self).chars@.len(),
            skip_white_space(old(self).chars@, old(self).pos as int) < old(self).chars@.len()
                ==> r == Some(
                (
                    byte_pos(
                        old(self).chars@,
                        skip_white_space(old(self).chars@, old(self).pos as int),
                    ) as usize,
                    old(self).chars@[skip_white_space(old(self).chars@, old(self).pos as int)],
                ),
            ) && final(self).pos == skip_white_space(old(self).chars@, old(self).pos as int)
                + 1,
    {
        let ghost s = self.chars@;
        let ghost p0 = self.pos as int;
        while self.pos < self.chars.len() && is_white_space(self.chars[self.pos])
            invariant
                self.wf(),
                self.chars@ == s,
                self.source == old(self).source,
                self.chars == old(self).chars,
                self.offsets == old(self).offsets,
                p0 <= self.pos,
                skip_white_space(s, p0) == skip_white_space(s, self.pos as int),
            decreases s.len() - self.pos,
        {
            self.pos = self.pos + 1;
        }
        if self.pos < self.chars.len() {
            let i = self.pos;
            self.pos = self.pos + 1;
            Some((self.offsets[i], self.chars[i]))
        } else {
            None
        }
    }

    /// Reads a bare token whose first character, at byte offset
    /// `first_index`, was already read.
    fn consume_number_or_null(&mut self, first_index: usize) -> (r: Option<JsonToken>)
        requires
            old(self).wf(),
            old(self).pos >= 1,
            first_index == byte_pos(old(self).chars@, old(self).pos - 1),
        ensures
            final(self).wf(),
            final(self).source == old(self).source,
            final(self).chars == old(self).chars,
            final(self).offsets == old(self).offsets,
            final(self).pos == bareword_end(old(self).chars@, old(self).pos as int),
            r == Some(
                token(
                    old(self).chars@,
                    JsonTokenKind::Number,
                    old(self).pos - 1,
                    bareword_end(old(self).chars@, old(self).pos as int),
                ),
            ),
    {
        let ghost s = self.chars@;
        let ghost p0 = self.pos as int;
        while self.pos < self.chars.len() && bareword_char(self.chars[self.pos])
            invariant
                self.wf(),
                self.chars@ == s,
                self.source == old(self).source,
                self.chars == old(self).chars,
                self.offsets == old(self).offsets,
                p0 <= self.pos,
                bareword_end(s, p0) == bareword_end(s, self.pos as int),
            decreases s.len() - self.pos,
        {
            self.pos = self.pos + 1;
        }
        Some(
            JsonToken {
                kind: JsonTokenKind::Number,
                span: Span { start: first_index, end: self.offsets[self.pos] },
            },
        )
    }

    /// Whether the very next character (white space is not skipped) is `}`.
    pub(crate) fn is_next_closing_brace(&self) -> (r: bool)
        requires
            self.wf(),
        ensures
            r == (self.pos < self.chars@.len() && self.chars@[self.pos as int] == '}'),
    {
        self.pos < self.chars.len() && self.chars[self.pos] == '}'
    }

    /// Whether the very next character (white space is not skipped) is `]`.
    pub(crate) fn is_next_closing_square_bracket(&self) -> (r: bool)
        requires
            self.wf(),
        ensures
            r == (self.pos < self.chars@.len() && self.chars@[self.pos as int] == ']'),
    {
        self.pos < self.chars.len() && self.chars[self.pos] == ']'
    }

    /// Whether exactly one character is left.
    pub(crate) fn is_on_last(&self) -> (r: bool)
        requires
            self.wf(),
        ensures
            r == (self.pos + 1 == self.chars@.len()),
    {
        self.pos < self.chars.len() && self.chars.len() - self.pos == 1
    }

    /// Reads the next token. Successive calls give the tokens of
    /// `token_run`, one by one, until none is left.
    pub(crate) fn next(&mut self) -> (r: Option<JsonToken>)
        requires
            old(self).wf(),
        ensures
            final(self).wf(),
            final(self).source == old(self).source,
            final(self).chars == old(self).chars,
            final(self).offsets == old(self).offsets,
            (r, final(self).pos as int) == next_token(old(self).chars@, old(self).pos as int),
            r is None ==> token_run(old(self).chars@, old(self).pos as int) == Seq::<
                (JsonToken, int, int),
            >::empty(),
            r matches Some(t) ==> token_run(old(self).chars@, old(self).pos as int) == seq![
                (t, skip_white_space(old(self).chars@, old(self).pos as int), final(self).pos as int),
            ] + token_run(old(self).chars@, final(self).pos as int),
    {
        proof {
            lemma_skip_white_space(self.chars@, self.pos as int);
            lemma_next_token_advances(self.chars@, self.pos as int);
        }
        let ghost ci = skip_white_space(self.chars@, self.pos as int);
        let (i, c) = match self.skip_whitespace_and_next() {
            Some(x) => x,
            None => {
                return None;
            },
        };
        let t = if c == '{' {
            Some(JsonTokenKind::OpeningBrace)
        } else if c == '}' {
            Some(JsonTokenKind::ClosingBrace)
        } else if c == '[' {
            Some(JsonTokenKind::OpeningSquareBracket)
        } else if c == ']' {
            Some(JsonTokenKind::ClosingSquareBracket)
        } else if c == ',' {
            Some(JsonTokenKind::Comma)
        } else if c == ':' {
            Some(JsonTokenKind::Colon)
        } else {
            None
        };
        if let Some(kind) = t {
            return Some(JsonToken { kind, span: Span { start: i, end: self.offsets[self.pos] } });
        }
        if c == '"' {
            // consume the whole string
            let ghost s = self.chars@;
            let mut in_escape = false;
            while self.pos < self.chars.len()
                invariant_except_break
                    string_end(s, ci + 1, false) == string_end(s, self.pos as int, in_escape),
                invariant
                    self.wf(),
                    self.chars@ == s,
                    self.source == old(self).source,
                    self.chars == old(self).chars,
                    self.offsets == old(self).offsets,
                    ci < self.pos <= s.len(),
                ensures
                    self.wf(),
                    self.chars@ == s,
                    self.source == old(self).source,
                    self.chars == old(self).chars,
                    self.offsets == old(self).offsets,
                    self.pos == string_end(s, ci + 1, false),
                decreases s.len() - self.pos,
            {
                let str_char = self.chars[self.pos];
                self.pos = self.pos + 1;
                if str_char == '"' && !in_escape {
                    break;
                }
                // A backslash escapes only the next character: after it is
                // consumed, the state resets so a later quote closes the string.
                in_escape = !in_escape && str_char == '\\';
            }
            return Some(
                JsonToken {
                    kind: JsonTokenKind::String,
                    span: Span { start: i, end: self.offsets[self.pos] },
                },
            );
        }
        // let's just assume it's a number if nothing else
        assert(self.offsets@[ci] as int == byte_pos(self.chars@, ci));
        self.consume_number_or_null(i)
    }
}

} // verus!
