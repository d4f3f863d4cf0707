//! Reading a cut-off JSON text: at every place where the parser starts a
//! value, an array or an object, the automaton of `grammar.rs` has read the
//! text before it and expects what the parser reads next.
use vstd::prelude::*;

use crate::chars::{is_bareword_char, white_space};
use crate::complete_proof::{after_ok, json_content, json_entries, json_members, json_unit, json_value, str_run};
use crate::grammar::{
    after_value, is_json_prefix, is_json_white_space, json_run, json_step, literal_text,
    string_step, value_start, Frame, JsonState, Mode, StrState,
};
use crate::grammar::json_num_step;
use crate::offsets::{lemma_byte_pos_strict, lemma_char_index};
use crate::parser::{
    escaped_after, parse_array_at, parse_object_at, parse_unit_at, parse_value_at, string_closed,
    unit_of,
};
use crate::run_lemmas::{lemma_ascii_bareword, lemma_step_ok_back};
use crate::tokenizer::{
    bareword_end, lemma_bareword_end, lemma_skip_white_space, lemma_string_end, next_token,
    skip_white_space, string_end, token, JsonTokenKind,
};
use crate::value::{UnitView, ValueView};
use vstd::utf8::encode_utf8;

verus! {

/// The state of the automaton after the first `k` characters of `s`.
pub open spec fn st(s: Seq<char>, k: int) -> Option<JsonState> {
    json_run(s.take(k))
}

/// The automaton does not stop inside an escape of a string or key at the
/// end of `s`.
pub open spec fn ends_outside_escape(s: Seq<char>) -> bool {
    match json_run(s) {
        Some(p) => match p.mode {
            Mode::InString(e) => e is Plain,
            Mode::InKey(e) => e is Plain,
            _ => true,
        },
        None => false,
    }
}

/// The conditions under which the lemmas below read `s`.
pub open spec fn cut_ok(s: Seq<char>) -> bool {
    &&& is_json_prefix(s)
    &&& ends_outside_escape(s)
    &&& encode_utf8(s).len() <= usize::MAX
}

/// Position `q` comes after a whole value inside the containers `k`, or is
/// the end of `s`.
pub open spec fn after_at(s: Seq<char>, q: int, k: Seq<Frame>) -> bool {
    q == s.len() || (st(s, q) matches Some(p) && after_ok(p, k) && (p.mode is Number
        ==> !is_bareword_char(s[q])))
}

/// Every prefix of a JSON prefix is one, and each step reads one character.
pub proof fn lemma_st(s: Seq<char>, k: int)
    requires
        is_json_prefix(s),
        0 <= k <= s.len(),
    ensures
        st(s, k) is Some,
        k < s.len() ==> st(s, k + 1) == json_step(st(s, k).unwrap(), s[k]),
    decreases s.len() - k,
{
    if k == s.len() {
        assert(s.take(k) =~= s);
    } else {
        lemma_st(s, k + 1);
        assert(s.take(k).push(s[k]) =~= s.take(k + 1));
        lemma_step_ok_back(s.take(k), s[k]);
    }
}

/// The modes in which white space is skipped without a change.
pub open spec fn stable(m: Mode) -> bool {
    m is Value || m is ArrayStart || m is ObjectStart || m is Key || m is AfterKey
        || m is AfterValue
}

/// Over the white space the tokenizer skips, the automaton keeps its
/// containers, keeps a stable mode, and stays after a whole value.
pub proof fn lemma_skip(s: Seq<char>, a: int, p: JsonState)
    requires
        is_json_prefix(s),
        0 <= a <= s.len(),
        st(s, a) == Some(p),
        stable(p.mode) || after_ok(p, p.stack),
        p.mode is Number ==> a == s.len() || !is_bareword_char(s[a]),
    ensures
        st(s, skip_white_space(s, a)) matches Some(p2) && p2.stack == p.stack && (stable(p.mode)
            ==> p2 == p) && (after_ok(p, p.stack) ==> after_ok(p2, p.stack) && (p2.mode is Number
            ==> skip_white_space(s, a) == s.len() || !is_bareword_char(
            s[skip_white_space(s, a)],
        ))),
    decreases s.len() - a,
{
    lemma_skip_white_space(s, a);
    if a < s.len() && white_space(s[a]) {
        lemma_st(s, a);
        lemma_st(s, a + 1);
        let c = s[a];
        lemma_ascii_bareword(c);
        if !is_json_white_space(c) {
            // Only JSON white space is read in these modes.
            if let Mode::Number(q) = p.mode {
                assert(json_num_step(q, c) is None);
            }
            assert(json_step(p, c) is None);
        }
        let p1 = st(s, a + 1).unwrap();
        if let Mode::Number(q) = p.mode {
            assert(json_num_step(q, c) is None);
        }
        assert(stable(p.mode) ==> p1 == p);
        assert(after_ok(p, p.stack) ==> p1 == JsonState { stack: p.stack, mode: Mode::AfterValue });
        lemma_skip(s, a + 1, p1);
    }
}

/// A backslash pending after one more character.
pub proof fn lemma_escaped_push(c: Seq<char>, x: char, e: bool)
    ensures
        escaped_after(c.push(x), e) == (!escaped_after(c, e) && x == '\\'),
    decreases c.len(),
{
    assert(c.push(x)[0] == if c.len() == 0 {
        x
    } else {
        c[0]
    });
    if c.len() == 0 {
        assert(c.push(x).drop_first() =~= Seq::<char>::empty());
        assert(escaped_after(Seq::<char>::empty(), !e && x == '\\') == (!e && x == '\\'));
        assert(escaped_after(c, e) == e);
    } else {
        assert(c.push(x).drop_first() =~= c.drop_first().push(x));
        lemma_escaped_push(c.drop_first(), x, !e && c[0] == '\\');
    }
}

/// The state of the automaton inside a string or a key.
pub open spec fn in_str(k: Seq<Frame>, e: StrState, key: bool) -> JsonState {
    JsonState {
        stack: k,
        mode: if key {
            Mode::InKey(e)
        } else {
            Mode::InString(e)
        },
    }
}

/// The state right after a string or a key.
pub open spec fn after_str(k: Seq<Frame>, key: bool) -> JsonState {
    JsonState {
        stack: k,
        mode: if key {
            Mode::AfterKey
        } else {
            Mode::AfterValue
        },
    }
}

/// Reading a string token from the opening quote at `i`: the tokenizer and
/// the automaton agree on where it closes, and its content is JSON string
/// content.
pub proof fn lemma_string_scan(
    s: Seq<char>,
    i: int,
    k: int,
    escaped: bool,
    ek: StrState,
    stk: Seq<Frame>,
    key: bool,
)
    requires
        cut_ok(s),
        0 <= i < k <= s.len(),
        s[i] == '"',
        st(s, k) == Some(in_str(stk, ek, key)),
        str_run(StrState::Plain, s.subrange(i + 1, k)) == Some(ek),
        escaped == (ek is Escape),
        escaped_after(s.subrange(i + 1, k), false) == escaped,
        string_end(s, i + 1, false) == string_end(s, k, escaped),
        k > i + 1 && s[k - 1] == '"' ==> escaped_after(s.subrange(i + 1, k - 1), false),
    ensures
        ({
            let e = string_end(s, i + 1, false);
            let src = s.subrange(i, e);
            &&& i < e <= s.len()
            &&& (e == s.len() && !string_closed(src) && json_content(src.drop_first())) || (
            string_closed(src) && st(s, e) == Some(after_str(stk, key)) && json_content(
                src.subrange(1, src.len() - 1),
            ))
        }),
    decreases s.len() - k,
{
    let e = string_end(s, i + 1, false);
    lemma_string_end(s, k, escaped);
    if k == s.len() {
        assert(s.take(k) =~= s);
        assert(ek is Plain);
        assert(e == s.len());
        let src = s.subrange(i, e);
        assert(src.drop_first() =~= s.subrange(i + 1, k));
        if src.len() >= 2 && src.last() == '"' {
            assert(src.last() == s[k - 1]);
            assert(src.subrange(1, src.len() - 1) =~= s.subrange(i + 1, k - 1));
        }
        assert(!string_closed(src));
    } else {
        lemma_st(s, k);
        let ch = s[k];
        let c = s.subrange(i + 1, k);
        assert(s.subrange(i + 1, k + 1) =~= c.push(ch));
        assert(c.push(ch).drop_last() =~= c);
        if ch == '"' && !escaped {
            lemma_st(s, k + 1);
            assert(ek is Plain);
            assert(st(s, k + 1) == Some(after_str(stk, key)));
            let src = s.subrange(i, e);
            assert(e == k + 1);
            assert(src.subrange(1, src.len() - 1) =~= c);
            assert(src.last() == '"');
            assert(string_closed(src));
        } else {
            let esc2 = !escaped && ch == '\\';
            assert(st(s, k + 1) is Some) by {
                lemma_st(s, k + 1);
            }
            let ek2 = match string_step(ek, ch) {
                Some(Some(x)) => x,
                _ => ek,
            };
            assert(string_step(ek, ch) == Some(Some(ek2)));
            assert(esc2 == (ek2 is Escape));
            lemma_escaped_push(c, ch, false);
            assert(s.subrange(i + 1, k + 1 - 1) =~= c);
            lemma_string_scan(s, i, k + 1, esc2, ek2, stk, key);
        }
    }
}

/// The characters of a token are the characters of its range.
pub proof fn lemma_token_src(s: Seq<char>, kind: JsonTokenKind, i: int, e: int)
    requires
        cut_ok(s),
        0 <= i <= e <= s.len(),
    ensures
        s.subrange(
            crate::offsets::char_index(s, token(s, kind, i, e).span.start as int),
            crate::offsets::char_index(s, token(s, kind, i, e).span.end as int),
        ) == s.subrange(i, e),
{
    lemma_byte_pos_strict(s, i, e);
    lemma_byte_pos_strict(s, e, s.len() as int);
    lemma_char_index(s, i);
    lemma_char_index(s, e);
}

/// A bare token from position `i` on: the automaton reads it as a number
/// or a literal, and after it a whole value has been read, unless the text
/// ends.
pub proof fn lemma_bare_scan(s: Seq<char>, i: int, k: int, stk: Seq<Frame>)
    requires
        is_json_prefix(s),
        0 <= i < k <= bareword_end(s, i + 1) <= s.len(),
        bareword_end(s, i + 1) == bareword_end(s, k),
        st(s, k) matches Some(p) && p.stack == stk && (p.mode is Number || p.mode is Literal
            || p.mode is AfterValue),
    ensures
        after_at(s, bareword_end(s, i + 1), stk),
    decreases s.len() - k,
{
    let e = bareword_end(s, i + 1);
    let p = st(s, k).unwrap();
    if k < s.len() {
        lemma_st(s, k);
        lemma_st(s, k + 1);
        let c = s[k];
        lemma_ascii_bareword(c);
        lemma_bareword_end(s, k + 1);
        if let Mode::Literal(n, m) = p.mode {
            if m < literal_text(n).len() {
                lemma_ascii_bareword(literal_text(n)[m as int]);
            }
        }
        if k < e {
            assert(is_bareword_char(c));
            if let Mode::Number(q) = p.mode {
                assert(json_num_step(q, c) is Some);
            }
            lemma_bare_scan(s, i, k + 1, stk);
        } else {
            assert(!is_bareword_char(c));
            if let Mode::Number(q) = p.mode {
                assert(json_num_step(q, c) is None);
            }
        }
    }
}

/// Reading a value from a place where the automaton expects one.
#[verifier::spinoff_prover]
#[verifier::rlimit(80)]
pub proof fn lemma_value_at(s: Seq<char>, a: int, stk: Seq<Frame>, m: Mode)
    requires
        cut_ok(s),
        0 <= a <= s.len(),
        m is Value || m is ArrayStart,
        m is ArrayStart ==> stk.len() > 0,
        st(s, a) == Some(JsonState { stack: stk, mode: m }),
    ensures
        ({
            let (r, q) = parse_value_at(s, a);
            &&& a <= q <= s.len()
            &&& r is Ok ==> json_value(r->Ok_0) && after_at(s, q, stk)
            &&& r is Err ==> (skip_white_space(s, a) >= s.len() && q == s.len()) || (m is ArrayStart
                && stk.len() > 0 && st(s, q) == Some(
                JsonState { stack: stk.drop_last(), mode: Mode::AfterValue },
            ))
        }),
    decreases s.len() - a, 0nat,
{
    let p = JsonState { stack: stk, mode: m };
    lemma_skip(s, a, p);
    lemma_skip_white_space(s, a);
    let i = skip_white_space(s, a);
    if i < s.len() {
        lemma_st(s, i);
        lemma_st(s, i + 1);
        let c = s[i];
        lemma_ascii_bareword(c);
        if c == '{' {
            lemma_object_at(s, i + 1, seq![], stk);
        } else if c == '[' {
            lemma_array_at(s, i + 1, seq![], stk);
        } else if c == '"' {
            assert(s.subrange(i + 1, i + 1) =~= Seq::<char>::empty());
            lemma_string_scan(s, i, i + 1, false, StrState::Plain, stk, false);
            let e = string_end(s, i + 1, false);
            lemma_token_src(s, JsonTokenKind::String, i, e);
            let src = s.subrange(i, e);
            assert(src[0] == '"');
            if e < s.len() {
                assert(after_ok(after_str(stk, false), stk));
            }
        } else if c == ']' || c == '}' || c == ',' || c == ':' {
            if c == ']' && m is ArrayStart {
            } else {
                assert(json_step(p, c) is None);
            }
        } else {
            let e = bareword_end(s, i + 1);
            lemma_bareword_end(s, i + 1);
            lemma_token_src(s, JsonTokenKind::Number, i, e);
            let src = s.subrange(i, e);
            assert(src[0] == c);
            assert(value_start(stk, c) is Some);
            lemma_bare_scan(s, i, i + 1, stk);
        }
    }
}

/// Reading the members of an array, from its start or after a comma.
#[verifier::spinoff_prover]
#[verifier::rlimit(80)]
pub proof fn lemma_array_at(s: Seq<char>, a: int, acc: Seq<ValueView>, stk: Seq<Frame>)
    requires
        cut_ok(s),
        0 <= a <= s.len(),
        json_members(acc),
        a == s.len() || st(s, a) == Some(
            JsonState { stack: stk.push(Frame::Array), mode: Mode::ArrayStart },
        ) || st(s, a) == Some(JsonState { stack: stk.push(Frame::Array), mode: Mode::Value }),
    ensures
        ({
            let (r, q) = parse_array_at(s, a, acc);
            &&& a <= q <= s.len()
            &&& r is Ok
            &&& json_members(r->Ok_0)
            &&& after_at(s, q, stk)
        }),
    decreases s.len() - a, 1nat,
{
    let k2 = stk.push(Frame::Array);
    assert(k2.drop_last() =~= stk);
    if a == s.len() {
        assert(skip_white_space(s, a) == s.len());
    } else {
        lemma_st(s, a);
        lemma_st(s, a + 1);
        if s[a] == ']' {
            lemma_ascii_bareword(']');
        } else if a + 1 == s.len() {
        } else {
            let m = st(s, a).unwrap().mode;
            lemma_value_at(s, a, k2, m);
            let (r, p) = parse_value_at(s, a);
            if let Ok(v) = r {
                let acc2 = acc.push(v);
                assert(acc2.drop_last() =~= acc);
                lemma_skip_white_space(s, p);
                if p == s.len() {
                    assert(skip_white_space(s, p) == s.len());
                    lemma_array_at(s, s.len() as int, acc2, stk);
                } else {
                    let pp = st(s, p).unwrap();
                    lemma_skip(s, p, pp);
                    let i = skip_white_space(s, p);
                    if i >= s.len() {
                        lemma_array_at(s, s.len() as int, acc2, stk);
                    } else {
                        lemma_st(s, i);
                        lemma_st(s, i + 1);
                        let c = s[i];
                        lemma_ascii_bareword(c);
                        let pi = st(s, i).unwrap();
                        if let Mode::Number(q) = pi.mode {
                            assert(json_num_step(q, c) is None);
                        }
                        assert(json_step(pi, c) == after_value(k2, c));
                        if c == ',' {
                            lemma_array_at(s, i + 1, acc2, stk);
                        } else {
                            assert(c == ']');
                        }
                    }
                }
            }
        }
    }
}

/// After a whole value inside a container, the next character that is no
/// white space is a comma, which leads to the next member or entry, or the
/// container's closer; or the text ends.
pub proof fn lemma_after_sep(s: Seq<char>, p: int, k2: Seq<Frame>, obj: bool)
    requires
        is_json_prefix(s),
        0 <= p < s.len(),
        after_at(s, p, k2),
        k2.len() > 0,
        obj ==> k2.last() is Object,
        !obj ==> k2.last() is Array,
    ensures
        ({
            let i = skip_white_space(s, p);
            &&& p <= i <= s.len()
            &&& i < s.len() ==> (s[i] == ',' && st(s, i + 1) == Some(
                JsonState {
                    stack: k2,
                    mode: if obj {
                        Mode::Key
                    } else {
                        Mode::Value
                    },
                },
            )) || (s[i] == (if obj {
                '}'
            } else {
                ']'
            }) && st(s, i + 1) == Some(
                JsonState { stack: k2.drop_last(), mode: Mode::AfterValue },
            ))
        }),
{
    let pp = st(s, p).unwrap();
    lemma_skip(s, p, pp);
    lemma_skip_white_space(s, p);
    let i = skip_white_space(s, p);
    if i < s.len() {
        lemma_st(s, i);
        lemma_st(s, i + 1);
        let c = s[i];
        lemma_ascii_bareword(c);
        let pi = st(s, i).unwrap();
        if let Mode::Number(q) = pi.mode {
            assert(json_num_step(q, c) is None);
        }
        assert(json_step(pi, c) == after_value(k2, c));
    }
}

/// After a key, the next character that is no white space is the colon,
/// after which a value is expected; or the text ends.
pub proof fn lemma_after_key(s: Seq<char>, e: int, k2: Seq<Frame>)
    requires
        is_json_prefix(s),
        0 <= e < s.len(),
        st(s, e) == Some(JsonState { stack: k2, mode: Mode::AfterKey }),
    ensures
        ({
            let i = skip_white_space(s, e);
            &&& e <= i <= s.len()
            &&& i < s.len() ==> s[i] == ':' && st(s, i + 1) == Some(
                JsonState { stack: k2, mode: Mode::Value },
            )
        }),
{
    lemma_skip(s, e, JsonState { stack: k2, mode: Mode::AfterKey });
    lemma_skip_white_space(s, e);
    let i = skip_white_space(s, e);
    if i < s.len() {
        lemma_st(s, i);
        lemma_st(s, i + 1);
        lemma_ascii_bareword(s[i]);
    }
}

/// At the start of an object, or after a comma in one, the next character
/// that is no white space opens a key, or (at the start) closes the object;
/// or the text ends.
pub proof fn lemma_before_key(s: Seq<char>, a: int, k2: Seq<Frame>)
    requires
        is_json_prefix(s),
        0 <= a < s.len(),
        st(s, a) == Some(JsonState { stack: k2, mode: Mode::ObjectStart }) || st(s, a) == Some(
            JsonState { stack: k2, mode: Mode::Key },
        ),
    ensures
        ({
            let i = skip_white_space(s, a);
            &&& a <= i <= s.len()
            &&& i < s.len() ==> (s[i] == '"' && st(s, i + 1) == Some(
                JsonState { stack: k2, mode: Mode::InKey(StrState::Plain) },
            )) || (s[i] == '}' && st(s, a) == Some(
                JsonState { stack: k2, mode: Mode::ObjectStart },
            ) && st(s, i + 1) == Some(
                JsonState { stack: k2.drop_last(), mode: Mode::AfterValue },
            ))
        }),
{
    let p0 = st(s, a).unwrap();
    lemma_skip(s, a, p0);
    lemma_skip_white_space(s, a);
    let i = skip_white_space(s, a);
    if i < s.len() {
        lemma_st(s, i);
        lemma_st(s, i + 1);
        lemma_ascii_bareword(s[i]);
    }
}

/// Reading the entries of an object, from its start or after a comma.
#[verifier::spinoff_prover]
#[verifier::rlimit(100)]
pub proof fn lemma_object_at(
    s: Seq<char>,
    a: int,
    acc: Seq<(UnitView, ValueView)>,
    stk: Seq<Frame>,
)
    requires
        cut_ok(s),
        0 <= a <= s.len(),
        json_entries(acc),
        a == s.len() || st(s, a) == Some(
            JsonState { stack: stk.push(Frame::Object), mode: Mode::ObjectStart },
        ) || st(s, a) == Some(JsonState { stack: stk.push(Frame::Object), mode: Mode::Key }),
    ensures
        ({
            let (r, q) = parse_object_at(s, a, acc);
            &&& a <= q <= s.len()
            &&& r is Ok
            &&& json_entries(r->Ok_0)
            &&& after_at(s, q, stk)
        }),
    decreases s.len() - a, 1nat,
{
    let k2 = stk.push(Frame::Object);
    assert(k2.drop_last() =~= stk);
    if a == s.len() {
        assert(skip_white_space(s, a) == s.len());
    } else if s[a] == '}' {
        lemma_st(s, a);
        lemma_st(s, a + 1);
        lemma_ascii_bareword('}');
    } else if a + 1 == s.len() {
    } else {
        lemma_before_key(s, a, k2);
        let i = skip_white_space(s, a);
        if i < s.len() && s[i] == '"' {
            assert(s.subrange(i + 1, i + 1) =~= Seq::<char>::empty());
            lemma_string_scan(s, i, i + 1, false, StrState::Plain, k2, true);
            let e = string_end(s, i + 1, false);
            lemma_token_src(s, JsonTokenKind::String, i, e);
            let src = s.subrange(i, e);
            assert(src[0] == '"');
            let key = unit_of(s, token(s, JsonTokenKind::String, i, e));
            assert(key is String && json_unit(key));
            let acc_null = acc.push((key, ValueView::Null));
            assert(acc_null.drop_last() =~= acc);
            assert(json_value(ValueView::Null));
            assert(json_entries(acc_null));
            lemma_skip_white_space(s, e);
            if e < s.len() {
                lemma_after_key(s, e, k2);
                let i2 = skip_white_space(s, e);
                if i2 < s.len() {
                    lemma_object_value(s, a, i2 + 1, key, acc, stk);
                }
            } else {
                assert(skip_white_space(s, e) == s.len());
            }
        }
    }
}

/// The value of an entry and what follows it.
#[verifier::spinoff_prover]
#[verifier::rlimit(60)]
pub proof fn lemma_object_value(
    s: Seq<char>,
    a: int,
    v: int,
    key: UnitView,
    acc: Seq<(UnitView, ValueView)>,
    stk: Seq<Frame>,
)
    requires
        cut_ok(s),
        0 <= a < v <= s.len(),
        key is String && json_unit(key),
        json_entries(acc),
        st(s, v) == Some(JsonState { stack: stk.push(Frame::Object), mode: Mode::Value }),
    ensures
        ({
            let (r, p3) = parse_value_at(s, v);
            match r {
                Err(_) => p3 == s.len(),
                Ok(val) => {
                    let acc2 = acc.push((key, val));
                    let (t, p4) = next_token(s, p3);
                    &&& json_entries(acc2)
                    &&& match t {
                        Some(tok) => if tok.kind is ClosingBrace {
                            a <= p4 <= s.len() && after_at(s, p4, stk)
                        } else {
                            tok.kind is Comma && a < p4 <= s.len() && ({
                                let (r2, q2) = parse_object_at(s, p4, acc2);
                                &&& p4 <= q2 <= s.len()
                                &&& r2 is Ok
                                &&& json_entries(r2->Ok_0)
                                &&& after_at(s, q2, stk)
                            })
                        },
                        None => a < p4 == s.len() && ({
                            let (r2, q2) = parse_object_at(s, p4, acc2);
                            &&& r2 is Ok
                            &&& json_entries(r2->Ok_0)
                            &&& after_at(s, q2, stk)
                        }),
                    }
                },
            }
        }),
    decreases s.len() - a, 0nat,
{
    let k2 = stk.push(Frame::Object);
    assert(k2.drop_last() =~= stk);
    lemma_value_at(s, v, k2, Mode::Value);
    let (r, p3) = parse_value_at(s, v);
    if let Ok(val) = r {
        let acc2 = acc.push((key, val));
        assert(acc2.drop_last() =~= acc);
        assert(json_entries(acc2));
        lemma_skip_white_space(s, p3);
        crate::tokenizer::lemma_next_token_advances(s, p3);
        if p3 == s.len() {
            assert(skip_white_space(s, p3) == s.len());
            lemma_object_at(s, s.len() as int, acc2, stk);
        } else {
            lemma_after_sep(s, p3, k2, true);
            let j = skip_white_space(s, p3);
            if j >= s.len() {
                lemma_object_at(s, s.len() as int, acc2, stk);
            } else if s[j] == ',' {
                lemma_object_at(s, j + 1, acc2, stk);
            }
        }
    }
}

} // verus!
