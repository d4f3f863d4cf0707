//! The parsing fixer: reads tokens and builds a value, filling in what a
//! cut-off text leaves open.
use vstd::prelude::*;

use crate::chars::same_chars;
use crate::chars::all_white_space;
use crate::grammar::{is_json_prefix, is_json_text};
use crate::laws::{lemma_fix_json_parse_completes, lemma_parse_number, lemma_parse_reads_back_text};
use crate::prefix_parse_proof::ends_outside_escape;
use crate::roundtrip_proof::value_ok;
use crate::value::value_text;
use crate::offsets::{byte_pos, char_index, lemma_char_index};
use crate::run_lemmas::lemma_ascii_bareword;
use crate::number::{is_json_number, is_valid_json_number};
use crate::tokenizer::{
    lemma_next_token_advances, next_token, JsonToken, JsonTokenKind, JsonTokenizer,
};
use crate::value::{view_entries, view_members, view_value, JsonArray, JsonError, JsonObject, JsonUnit, JsonValue, UnitView, ValueView};

verus! {

/// A result with its success value replaced by its model.
pub open spec fn result_view<T: View>(r: Result<T, JsonError>) -> Result<T::V, JsonError> {
    match r {
        Ok(t) => Ok(t@),
        Err(e) => Err(e),
    }
}

/// Whether a backslash escapes what follows the characters `c`, read from
/// the state `escaped` (a backslash escapes only the next character).
pub open spec fn escaped_after(c: Seq<char>, escaped: bool) -> bool
    decreases c.len(),
{
    if c.len() == 0 {
        escaped
    } else {
        escaped_after(c.drop_first(), !escaped && c[0] == '\\')
    }
}

/// Whether the string token `src` ends in its closing quote: a `"` after
/// the opening one that no backslash escapes.
pub open spec fn string_closed(src: Seq<char>) -> bool {
    src.len() >= 2 && src.last() == '"' && !escaped_after(src.subrange(1, src.len() - 1), false)
}

/// The scalar that token `t` of `s` stands for: a string without its
/// opening quote and, where the text has it, its closing quote; `true`,
/// `false`, a number, or else `null`.
pub open spec fn unit_of(s: Seq<char>, t: JsonToken) -> UnitView {
    let src = s.subrange(char_index(s, t.span.start as int), char_index(s, t.span.end as int));
    if src.len() > 0 && src[0] == '"' {
        if string_closed(src) {
            UnitView::String(src.subrange(1, src.len() - 1))
        } else {
            UnitView::String(src.drop_first())
        }
    } else if src == seq!['t', 'r', 'u', 'e'] {
        UnitView::True
    } else if src == seq!['f', 'a', 'l', 's', 'e'] {
        UnitView::False
    } else if is_json_number(src) {
        UnitView::Number(src)
    } else {
        UnitView::Null
    }
}

/// Whether the character at `pos` is `c` (white space is not skipped).
pub open spec fn next_char_is(s: Seq<char>, pos: int, c: char) -> bool {
    0 <= pos < s.len() && s[pos] == c
}

/// Reads a scalar: the next token must be a string or a bare token.
pub open spec fn parse_unit_at(s: Seq<char>, pos: int) -> (Result<UnitView, JsonError>, int) {
    let (t, p) = next_token(s, pos);
    match t {
        None => (Err(JsonError::UnexpectedEnd), p),
        Some(tok) => if tok.kind is String || tok.kind is Number {
            (Ok(unit_of(s, tok)), p)
        } else {
            (Err(JsonError::ExpectedToken { got: tok, expected: None }), p)
        },
    }
}

/// Reads a value that starts at `pos`; returns it and the position after it.
pub open spec fn parse_value_at(s: Seq<char>, pos: int) -> (Result<ValueView, JsonError>, int)
    decreases s.len() - pos, 0nat,
    when 0 <= pos <= s.len()
{
    let (t, p) = next_token(s, pos);
    match t {
        None => (Err(JsonError::UnexpectedEnd), p),
        Some(tok) => {
            proof {
                lemma_next_token_advances(s, pos);
            }
            match tok.kind {
                JsonTokenKind::Null | JsonTokenKind::String | JsonTokenKind::Number => (
                    Ok(ValueView::Unit(unit_of(s, tok))),
                    p,
                ),
                JsonTokenKind::OpeningBrace => {
                    let (r, q) = parse_object_at(s, p, seq![]);
                    (
                        match r {
                            Ok(es) => Ok(ValueView::Object(es)),
                            Err(e) => Err(e),
                        },
                        q,
                    )
                },
                JsonTokenKind::OpeningSquareBracket => {
                    let (r, q) = parse_array_at(s, p, seq![]);
                    (
                        match r {
                            Ok(ms) => Ok(ValueView::Array(ms)),
                            Err(e) => Err(e),
                        },
                        q,
                    )
                },
                _ => (Err(JsonError::ExpectedToken { got: tok, expected: None }), p),
            }
        },
    }
}

/// Reads the members of an array whose `[` is already read, after the
/// members `acc`. The array ends after a `]` that comes right away or that
/// follows a member, after the last character when only one is left, or at
/// a member that cannot be read.
pub open spec fn parse_array_at(s: Seq<char>, pos: int, acc: Seq<ValueView>) -> (
    Result<Seq<ValueView>, JsonError>,
    int,
)
    decreases s.len() - pos, 1nat,
    when 0 <= pos <= s.len()
{
    if next_char_is(s, pos, ']') {
        (Ok(acc), pos + 1)
    } else if pos + 1 == s.len() {
        (Ok(acc), pos + 1)
    } else {
        let (r, p) = parse_value_at(s, pos);
        match r {
            Err(_) => (Ok(acc), p),
            Ok(v) => {
                let acc = acc.push(v);
                let (t, q) = next_token(s, p);
                match t {
                    Some(tok) => if tok.kind is ClosingSquareBracket {
                        (Ok(acc), q)
                    } else if tok.kind is Comma {
                        if pos < q <= s.len() {
                            parse_array_at(s, q, acc)
                        } else {
                            (Ok(acc), q)
                        }
                    } else {
                        (
                            Err(
                                JsonError::ExpectedToken {
                                    got: tok,
                                    expected: Some(JsonTokenKind::ClosingSquareBracket),
                                },
                            ),
                            q,
                        )
                    },
                    None => if pos < q <= s.len() {
                        parse_array_at(s, q, acc)
                    } else {
                        (Ok(acc), q)
                    },
                }
            },
        }
    }
}

/// Reads the entries of an object whose `{` is already read, after the
/// entries `acc`. The object ends after a `}` that comes right away or that
/// follows an entry, after the last character when only one is left, or at a key
/// that cannot be read. A key is a string or bare token; the token after it
/// is taken as the colon; a missing value becomes `null`.
pub open spec fn parse_object_at(s: Seq<char>, pos: int, acc: Seq<(UnitView, ValueView)>) -> (
    Result<Seq<(UnitView, ValueView)>, JsonError>,
    int,
)
    decreases s.len() - pos, 1nat,
    when 0 <= pos <= s.len()
{
    if next_char_is(s, pos, '}') {
        (Ok(acc), pos + 1)
    } else if pos + 1 == s.len() {
        (Ok(acc), pos + 1)
    } else {
        let (k, p1) = parse_unit_at(s, pos);
        match k {
            Err(_) => (Ok(acc), p1),
            Ok(key) => {
                let (c, p2) = next_token(s, p1);
                if c is None {
                    (Ok(acc.push((key, ValueView::Null))), p2)
                } else {
                    proof {
                        lemma_next_token_advances(s, pos);
                        lemma_next_token_advances(s, p1);
                    }
                    let (v, p3) = parse_value_at(s, p2);
                    match v {
                        Err(_) => (Ok(acc.push((key, ValueView::Null))), p3),
                        Ok(val) => {
                            let acc = acc.push((key, val));
                            let (t, p4) = next_token(s, p3);
                            match t {
                                Some(tok) => if tok.kind is ClosingBrace {
                                    (Ok(acc), p4)
                                } else if tok.kind is Comma {
                                    if pos < p4 <= s.len() {
                                        parse_object_at(s, p4, acc)
                                    } else {
                                        (Ok(acc), p4)
                                    }
                                } else {
                                    (
                                        Err(
                                            JsonError::ExpectedToken {
                                                got: tok,
                                                expected: Some(JsonTokenKind::ClosingBrace),
                                            },
                                        ),
                                        p4,
                                    )
                                },
                                None => if pos < p4 <= s.len() {
                                    parse_object_at(s, p4, acc)
                                } else {
                                    (Ok(acc), p4)
                                },
                            }
                        },
                    }
                }
            },
        }
    }
}

/// What `fix_json_parse` returns for the characters `s`.
pub open spec fn parsed_json(s: Seq<char>) -> Result<ValueView, JsonError> {
    parse_value_at(s, 0).0
}

/// A read value ends after where it starts, and no read goes past the end.
pub proof fn lemma_parse_value_advances(s: Seq<char>, pos: int)
    requires
        0 <= pos <= s.len(),
    ensures
        pos <= parse_value_at(s, pos).1 <= s.len(),
        parse_value_at(s, pos).0 is Ok ==> pos < parse_value_at(s, pos).1,
    decreases s.len() - pos, 0nat,
{
    lemma_next_token_advances(s, pos);
    let (t, p) = next_token(s, pos);
    if let Some(tok) = t {
        if tok.kind is OpeningBrace {
            lemma_parse_object_advances(s, p, seq![]);
        } else if tok.kind is OpeningSquareBracket {
            lemma_parse_array_advances(s, p, seq![]);
        }
    }
}

/// An array read stays within the text.
pub proof fn lemma_parse_array_advances(s: Seq<char>, pos: int, acc: Seq<ValueView>)
    requires
        0 <= pos <= s.len(),
    ensures
        pos <= parse_array_at(s, pos, acc).1 <= s.len(),
    decreases s.len() - pos, 1nat,
{
    if !(next_char_is(s, pos, ']') || pos + 1 == s.len()) {
        lemma_parse_value_advances(s, pos);
        let (r, p) = parse_value_at(s, pos);
        if let Ok(v) = r {
            lemma_next_token_advances(s, p);
            let (t, q) = next_token(s, p);
            if pos < q <= s.len() {
                lemma_parse_array_advances(s, q, acc.push(v));
            }
        }
    }
}

/// An object read stays within the text.
pub proof fn lemma_parse_object_advances(
    s: Seq<char>,
    pos: int,
    acc: Seq<(UnitView, ValueView)>,
)
    requires
        0 <= pos <= s.len(),
    ensures
        pos <= parse_object_at(s, pos, acc).1 <= s.len(),
    decreases s.len() - pos, 1nat,
{
    if !(next_char_is(s, pos, '}') || pos + 1 == s.len()) {
        lemma_next_token_advances(s, pos);
        let (k, p1) = parse_unit_at(s, pos);
        if let Ok(key) = k {
            lemma_next_token_advances(s, p1);
            let (c, p2) = next_token(s, p1);
            if c is Some {
                lemma_parse_value_advances(s, p2);
                let (v, p3) = parse_value_at(s, p2);
                if let Ok(val) = v {
                    lemma_next_token_advances(s, p3);
                    let (t, p4) = next_token(s, p3);
                    if pos < p4 <= s.len() {
                        lemma_parse_object_advances(s, p4, acc.push((key, val)));
                    }
                }
            }
        }
    }
}

/// The model of a sequence with one more value.
proof fn lemma_view_members_push<'a>(ms: Seq<JsonValue<'a>>, v: JsonValue<'a>)
    ensures
        view_members(ms.push(v)) == view_members(ms).push(view_value(v)),
{
    assert(ms.push(v).drop_last() =~= ms);
}

/// The model of a sequence with one more entry.
proof fn lemma_view_entries_push<'a>(es: Seq<(JsonUnit<'a>, JsonValue<'a>)>, k: JsonUnit<'a>, v: JsonValue<'a>)
    ensures
        view_entries(es.push((k, v))) == view_entries(es).push((k@, view_value(v))),
{
    assert(es.push((k, v)).drop_last() =~= es);
}

type JResult<T> = Result<T, JsonError>;

/// Reads values from the tokens of a source text.
pub(crate) struct JsonParser<'a> {
    pub(crate) tokenizer: JsonTokenizer<'a>,
}

impl<'a> JsonParser<'a> {
    /// The characters being parsed.
    pub(crate) open spec fn chars(&self) -> Seq<char> {
        self.tokenizer.chars@
    }

    /// The position reached.
    pub(crate) open spec fn pos(&self) -> int {
        self.tokenizer.pos as int
    }

    /// A parser reading from `tokenizer`.
    pub(crate) fn new(tokenizer: JsonTokenizer<'a>) -> (r: Self)
        ensures
            r.tokenizer == tokenizer,
    {
        Self { tokenizer }
    }

    /// Reads one value.
    pub(crate) fn parse(self) -> (r: JResult<JsonValue<'a>>)
        requires
            self.tokenizer.wf(),
        ensures
            result_view(r) == parse_value_at(self.chars(), self.pos()).0,
    {
        let mut parser = self;
        let (_errors, value) = parser.parse_value()?;
        Ok(value)
    }

    /// Reads a value.
    fn parse_value(&mut self) -> (r: JResult<(Vec<JsonError>, JsonValue<'a>)>)
        requires
            old(self).tokenizer.wf(),
        ensures
            final(self).tokenizer.wf(),
            final(self).tokenizer.source == old(self).tokenizer.source,
            (
                match r {
                    Ok((_, v)) => Ok(v@),
                    Err(e) => Err(e),
                },
                final(self).pos(),
            ) == parse_value_at(old(self).chars(), old(self).pos()),
        decreases old(self).chars().len() - old(self).pos(), 0nat,
    {
        let ghost s = self.chars();
        let ghost p0 = self.pos();
        proof {
            lemma_next_token_advances(s, p0);
            lemma_next_token_advances(s, p0);
        }
        let token = match self.tokenizer.next() {
            Some(token) => token,
            None => {
                return Err(JsonError::UnexpectedEnd);
            },
        };
        match token.kind {
            JsonTokenKind::Null | JsonTokenKind::String | JsonTokenKind::Number => {
                Ok((vec![], JsonValue::Unit(self.token_as_unit(&token))))
            },
            JsonTokenKind::OpeningBrace => Ok((vec![], JsonValue::Object(self.parse_object()?))),
            JsonTokenKind::OpeningSquareBracket => {
                Ok((vec![], JsonValue::Array(self.parse_array()?)))
            },
            JsonTokenKind::Comma
            | JsonTokenKind::Colon
            | JsonTokenKind::ClosingBrace
            | JsonTokenKind::ClosingSquareBracket => Err(
                JsonError::ExpectedToken { got: token, expected: None },
            ),
        }
    }

    /// The scalar that `token` stands for.
    fn token_as_unit(&self, token: &JsonToken) -> (r: JsonUnit<'a>)
        requires
            self.tokenizer.wf(),
            exists|i: int, e: int|
                0 <= i <= e <= self.chars().len() && #[trigger] crate::tokenizer::token(
                    self.chars(),
                    token.kind,
                    i,
                    e,
                ) == *token,
        ensures
            r@ == unit_of(self.chars(), *token),
    {
        let ghost s = self.chars();
        let ghost (i, e) = choose|i: int, e: int|
            0 <= i <= e <= s.len() && #[trigger] crate::tokenizer::token(s, token.kind, i, e)
                == *token;
        proof {
            assert(self.tokenizer.offsets@[i] as int == byte_pos(s, i));
            assert(self.tokenizer.offsets@[e] as int == byte_pos(s, e));
            lemma_char_index(s, i);
            lemma_char_index(s, e);
        }
        let source = self.tokenizer.span_source(token);
        let start = self.tokenizer.char_index_of(token.span.start);
        let end = self.tokenizer.char_index_of(token.span.end);
        let ghost old_chars = self.chars();
        let ghost src = self.chars().subrange(start as int, end as int);
        if end > start && self.tokenizer.chars[start] == '"' {
            // Strip the opening quote, and the closing one where the string
            // has it: a last `"` that a backslash escapes is content.
            if end - start >= 2 && self.tokenizer.chars[end - 1] == '"' {
                let ghost c = src.subrange(1, src.len() - 1);
                let mut k = start + 1;
                let mut escaped = false;
                assert(c =~= old_chars.subrange(start + 1, end - 1));
                while k < end - 1
                    invariant
                        self.tokenizer.wf(),
                        self.chars() == old_chars,
                        start + 1 <= k <= end - 1,
                        end <= old_chars.len(),
                        c == old_chars.subrange(start + 1, end - 1),
                        escaped_after(c, false) == escaped_after(
                            old_chars.subrange(k as int, end - 1),
                            escaped,
                        ),
                    decreases end - 1 - k,
                {
                    let ch = self.tokenizer.chars[k];
                    assert(old_chars.subrange(k as int, end - 1).drop_first() =~= old_chars.subrange(
                        k + 1,
                        end - 1,
                    ));
                    escaped = !escaped && ch == '\\';
                    k = k + 1;
                }
                assert(old_chars.subrange(k as int, end - 1) =~= Seq::<char>::empty());
                assert(c =~= src.subrange(1, src.len() - 1));
                if !escaped {
                    let stripped = self.tokenizer.source.substring_char(start + 1, end - 1);
                    assert(stripped@ =~= src.subrange(1, src.len() - 1));
                    return JsonUnit::String(stripped);
                }
            }
            let content = self.tokenizer.source.substring_char(start + 1, end);
            assert(content@ =~= src.drop_first());
            return JsonUnit::String(content);
        }
        let text = &self.tokenizer.chars.as_slice()[start..end];
        let t = vec!['t', 'r', 'u', 'e'];
        if same_chars(text, t.as_slice()) {
            return JsonUnit::True;
        }
        let f = vec!['f', 'a', 'l', 's', 'e'];
        if same_chars(text, f.as_slice()) {
            return JsonUnit::False;
        }
        if is_valid_json_number(text) {
            return JsonUnit::Number(source);
        }
        JsonUnit::Null
    }

    /// Reads a scalar: a string or a bare token.
    fn parse_unit(&mut self) -> (r: JResult<JsonUnit<'a>>)
        requires
            old(self).tokenizer.wf(),
        ensures
            final(self).tokenizer.wf(),
            final(self).tokenizer.source == old(self).tokenizer.source,
            (result_view(r), final(self).pos()) == parse_unit_at(old(self).chars(), old(self).pos()),
    {
        proof {
            lemma_next_token_advances(self.chars(), self.pos());
        }
        let t = match self.tokenizer.next() {
            Some(t) => t,
            None => {
                return Err(JsonError::UnexpectedEnd);
            },
        };
        proof {
            lemma_next_token_advances(old(self).chars(), old(self).pos());
        }
        match t.kind {
            JsonTokenKind::String | JsonTokenKind::Number => Ok(self.token_as_unit(&t)),
            _ => Err(JsonError::ExpectedToken { got: t, expected: None }),
        }
    }

    /// Reads the members of an array whose `[` was read.
    fn parse_array(&mut self) -> (r: JResult<JsonArray<'a>>)
        requires
            old(self).tokenizer.wf(),
        ensures
            final(self).tokenizer.wf(),
            final(self).tokenizer.source == old(self).tokenizer.source,
            (result_view(r), final(self).pos()) == parse_array_at(
                old(self).chars(),
                old(self).pos(),
                seq![],
            ),
        decreases old(self).chars().len() - old(self).pos(), 1nat,
    {
        let ghost s = self.chars();
        let ghost p0 = self.pos();
        let mut members: Vec<JsonValue<'a>> = vec![];
        assert(view_members(members@) =~= Seq::<ValueView>::empty());
        loop
            invariant_except_break
                parse_array_at(s, p0, seq![]) == parse_array_at(
                    s,
                    self.pos(),
                    view_members(members@),
                ),
            invariant
                self.tokenizer.wf(),
                self.tokenizer.source == old(self).tokenizer.source,
                self.chars() == s,
                s == old(self).chars(),
                p0 == old(self).pos(),
                p0 <= self.pos() <= s.len(),
            ensures
                parse_array_at(s, p0, seq![]) == (Ok::<Seq<ValueView>, JsonError>(view_members(members@)), self.pos()),
            decreases s.len() - self.pos(),
        {
            if self.tokenizer.is_next_closing_square_bracket() {
                proof {
                    lemma_ascii_bareword(']');
                }
                let _closer = self.tokenizer.next();
                break;
            }
            if self.tokenizer.is_on_last() {
                proof {
                    lemma_next_token_advances(s, self.pos());
                }
                let _last = self.tokenizer.next();
                break;
            }
            let ghost before = self.pos();
            let ghost acc = view_members(members@);
            proof {
                lemma_parse_value_advances(s, before);
            }
            if let Ok((_errors, value)) = self.parse_value() {
                proof {
                    lemma_view_members_push(members@, value);
                    lemma_next_token_advances(s, self.pos());
                }
                members.push(value);
                match self.tokenizer.next() {
                    Some(token) => {
                        if token.kind == JsonTokenKind::ClosingSquareBracket {
                            break;
                        } else if token.kind == JsonTokenKind::Comma {
                        } else {
                            return Err(
                                JsonError::ExpectedToken {
                                    got: token,
                                    expected: Some(JsonTokenKind::ClosingSquareBracket),
                                },
                            );
                        }
                    },
                    None => {},
                }
            } else {
                break;
            }
        }
        Ok(JsonArray { members })
    }

    /// Reads the entries of an object whose `{` was read.
    fn parse_object(&mut self) -> (r: JResult<JsonObject<'a>>)
        requires
            old(self).tokenizer.wf(),
        ensures
            final(self).tokenizer.wf(),
            final(self).tokenizer.source == old(self).tokenizer.source,
            (result_view(r), final(self).pos()) == parse_object_at(
                old(self).chars(),
                old(self).pos(),
                seq![],
            ),
        decreases old(self).chars().len() - old(self).pos(), 1nat,
    {
        let ghost s = self.chars();
        let ghost p0 = self.pos();
        let mut values: Vec<(JsonUnit<'a>, JsonValue<'a>)> = vec![];
        assert(view_entries(values@) =~= Seq::<(UnitView, ValueView)>::empty());
        loop
            invariant_except_break
                parse_object_at(s, p0, seq![]) == parse_object_at(
                    s,
                    self.pos(),
                    view_entries(values@),
                ),
            invariant
                self.tokenizer.wf(),
                self.tokenizer.source == old(self).tokenizer.source,
                self.chars() == s,
                s == old(self).chars(),
                p0 == old(self).pos(),
                p0 <= self.pos() <= s.len(),
            ensures
                parse_object_at(s, p0, seq![]) == (Ok::<Seq<(UnitView, ValueView)>, JsonError>(view_entries(values@)), self.pos()),
            decreases s.len() - self.pos(),
        {
            if self.tokenizer.is_next_closing_brace() {
                proof {
                    lemma_ascii_bareword('}');
                }
                let _closer = self.tokenizer.next();
                break;
            }
            if self.tokenizer.is_on_last() {
                proof {
                    lemma_next_token_advances(s, self.pos());
                }
                let _last = self.tokenizer.next();
                break;
            }
            let ghost before = self.pos();
            proof {
                lemma_next_token_advances(s, before);
            }
            let key = match self.parse_unit() {
                Ok(key) => key,
                Err(_) => {
                    break;
                },
            };
            proof {
                lemma_next_token_advances(s, self.pos());
            }
            // parse colon
            if self.tokenizer.next().is_none() {
                proof {
                    lemma_view_entries_push(values@, key, JsonValue::Null);
                }
                values.push((key, JsonValue::Null));
                break;
            }
            proof {
                lemma_parse_value_advances(s, self.pos());
            }
            let value = match self.parse_value() {
                Ok((_errors, value)) => value,
                Err(_) => {
                    proof {
                        lemma_view_entries_push(values@, key, JsonValue::Null);
                    }
                    values.push((key, JsonValue::Null));
                    break;
                },
            };
            proof {
                lemma_view_entries_push(values@, key, value);
                lemma_next_token_advances(s, self.pos());
            }
            values.push((key, value));
            match self.tokenizer.next() {
                Some(token) => {
                    if token.kind == JsonTokenKind::ClosingBrace {
                        break;
                    } else if token.kind == JsonTokenKind::Comma {
                    } else {
                        return Err(
                            JsonError::ExpectedToken {
                                got: token,
                                expected: Some(JsonTokenKind::ClosingBrace),
                            },
                        );
                    }
                },
                None => {},
            }
        }
        Ok(JsonObject { values })
    }
}

/// Takes a partial JSON string, kinda parses it and returns a complete JSON object.
/// The JSON is tokenized and parsed. It can then be converted to a string with the
/// `to_string` method.
pub fn fix_json_parse<'a>(partial_json: &'a str) -> (r: Result<JsonValue<'a>, JsonError>)
    ensures
        result_view(r) == parsed_json(partial_json@),
        is_json_number(partial_json@) ==> result_view(r) == Ok::<ValueView, JsonError>(
            ValueView::Unit(UnitView::Number(partial_json@)),
        ),
        forall|v: ValueView|
            value_ok(v) && #[trigger] value_text(v) == partial_json@ ==> result_view(r) == Ok::<
                ValueView,
                JsonError,
            >(v),
        is_json_prefix(partial_json@) && ends_outside_escape(partial_json@) && !all_white_space(
            partial_json@,
        ) ==> r is Ok && is_json_text(value_text(result_view(r)->Ok_0)),
{
    let _bytes = partial_json.as_bytes().len();
    proof {
        if is_json_number(partial_json@) {
            lemma_parse_number(partial_json@);
        }
        if is_json_prefix(partial_json@) && ends_outside_escape(partial_json@) && !all_white_space(
            partial_json@,
        ) {
            lemma_fix_json_parse_completes(partial_json@);
        }
        assert forall|v: ValueView|
            value_ok(v) && #[trigger] value_text(v) == partial_json@ implies parsed_json(
                partial_json@,
            ) == Ok::<ValueView, JsonError>(v) by {
            lemma_parse_reads_back_text(v);
        }
    }
    let tokenizer = JsonTokenizer::new(partial_json);
    let parser = JsonParser::new(tokenizer);
    let value = parser.parse()?;
    Ok(value)
}

} // verus!
