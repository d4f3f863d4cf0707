//! What `to_string` writes is a JSON text when every scalar in the value is
//! one: the automaton of `grammar.rs` runs through the text of such a value.
use vstd::prelude::*;

use crate::chars::is_digit;
use crate::grammar::{
    after_value, is_json_text, json_num_accepting, json_num_step, is_json_white_space, json_accepting, json_init, json_run,
    json_run_from, json_step, string_step, value_start, Frame, JsonState, Mode, StrState,
};
use crate::number::{is_json_number, num_accepting, num_run, num_run_from, num_step, NumState};
use crate::value::{
    entries_text, entry_text, members_text, null_text, separator, unit_text, value_text, UnitView,
    ValueView,
};

verus! {

/// Runs the string automaton from `e` over `c`; `None` once a character is
/// refused or the string closes.
pub open spec fn str_run(e: StrState, c: Seq<char>) -> Option<StrState>
    decreases c.len(),
{
    if c.len() == 0 {
        Some(e)
    } else {
        match str_run(e, c.drop_last()) {
            Some(e2) => match string_step(e2, c.last()) {
                Some(Some(e3)) => Some(e3),
                _ => None,
            },
            None => None,
        }
    }
}

/// `c` is the content of a JSON string: it may stand between two quotes.
pub open spec fn json_content(c: Seq<char>) -> bool {
    str_run(StrState::Plain, c) == Some(StrState::Plain)
}

/// A scalar whose text is a JSON value.
pub open spec fn json_unit(u: UnitView) -> bool {
    match u {
        UnitView::Number(n) => is_json_number(n),
        UnitView::String(c) => json_content(c),
        _ => true,
    }
}

/// A value whose text is a JSON value: its scalars are JSON scalars and its
/// keys are strings.
pub open spec fn json_value(v: ValueView) -> bool
    decreases v, 2nat,
{
    match v {
        ValueView::Unit(u) => json_unit(u),
        ValueView::Array(ms) => json_members(ms),
        ValueView::Object(es) => json_entries(es),
        ValueView::Null => true,
    }
}

/// Every member is a JSON value.
pub open spec fn json_members(ms: Seq<ValueView>) -> bool
    decreases ms, 1nat,
{
    if ms.len() == 0 {
        true
    } else {
        json_members(ms.drop_last()) && json_value(ms.last())
    }
}

/// Every key is a JSON string and every value a JSON value.
pub open spec fn json_entries(es: Seq<(UnitView, ValueView)>) -> bool
    decreases es, 1nat,
{
    if es.len() == 0 {
        true
    } else {
        json_entries(es.drop_last()) && es.last().0 is String && json_unit(es.last().0)
            && json_value(es.last().1)
    }
}

/// The automaton has just read a whole value inside the containers `k`.
pub open spec fn after_ok(st: JsonState, k: Seq<Frame>) -> bool {
    &&& st.stack == k
    &&& match st.mode {
        Mode::AfterValue => true,
        Mode::Number(q) => json_num_accepting(q),
        _ => false,
    }
}

/// Running over two texts in turn is running over the two joined.
pub proof fn lemma_run_concat(st: JsonState, a: Seq<char>, b: Seq<char>)
    ensures
        json_run_from(st, a + b) == match json_run_from(st, a) {
            Some(p) => json_run_from(p, b),
            None => None,
        },
    decreases b.len(),
{
    if b.len() == 0 {
        assert(a + b =~= a);
    } else {
        assert((a + b).drop_last() =~= a + b.drop_last());
        assert((a + b).last() == b.last());
        lemma_run_concat(st, a, b.drop_last());
    }
}

/// After a whole value, a separator, a closer or white space is read as
/// `after_value` reads it.
pub proof fn lemma_after_ok_step(st: JsonState, k: Seq<Frame>, c: char)
    requires
        after_ok(st, k),
        c == ',' || c == ']' || c == '}' || is_json_white_space(c),
    ensures
        json_step(st, c) == after_value(k, c),
{
    assert(!is_digit(c));
    if let Mode::Number(q) = st.mode {
        assert(json_num_step(q, c) is None);
    }
}

/// Runs over one character.
pub proof fn lemma_run_one(st: JsonState, c: char)
    ensures
        json_run_from(st, seq![c]) == json_step(st, c),
{
    assert(seq![c].drop_last() =~= Seq::<char>::empty());
    assert(json_run_from(st, Seq::<char>::empty()) == Some(st));
}

/// String content read by the string automaton keeps the automaton inside
/// the string (or key).
pub proof fn lemma_str_run(k: Seq<Frame>, e: StrState, c: Seq<char>, key: bool)
    requires
        str_run(e, c) is Some,
    ensures
        json_run_from(
            JsonState {
                stack: k,
                mode: if key {
                    Mode::InKey(e)
                } else {
                    Mode::InString(e)
                },
            },
            c,
        ) == Some(
            JsonState {
                stack: k,
                mode: if key {
                    Mode::InKey(str_run(e, c).unwrap())
                } else {
                    Mode::InString(str_run(e, c).unwrap())
                },
            },
        ),
    decreases c.len(),
{
    if c.len() > 0 {
        lemma_str_run(k, e, c.drop_last(), key);
    }
}

/// A quoted JSON string content runs from a value or key position to just
/// after its closing quote.
pub proof fn lemma_quoted_run(k: Seq<Frame>, c: Seq<char>, key: bool)
    requires
        json_content(c),
    ensures
        json_run_from(
            JsonState {
                stack: k,
                mode: if key {
                    Mode::InKey(StrState::Plain)
                } else {
                    Mode::InString(StrState::Plain)
                },
            },
            c + seq!['"'],
        ) == Some(
            JsonState {
                stack: k,
                mode: if key {
                    Mode::AfterKey
                } else {
                    Mode::AfterValue
                },
            },
        ),
{
    let st = JsonState {
        stack: k,
        mode: if key {
            Mode::InKey(StrState::Plain)
        } else {
            Mode::InString(StrState::Plain)
        },
    };
    lemma_str_run(k, StrState::Plain, c, key);
    lemma_run_concat(st, c, seq!['"']);
    lemma_run_one(
        JsonState {
            stack: k,
            mode: if key {
                Mode::InKey(StrState::Plain)
            } else {
                Mode::InString(StrState::Plain)
            },
        },
        '"',
    );
}

/// A JSON number read from a value position leaves the automaton in the
/// number state for it.
pub proof fn lemma_number_run(k: Seq<Frame>, n: Seq<char>)
    requires
        n.len() > 0,
        num_run(n) is Some,
    ensures
        json_run_from(JsonState { stack: k, mode: Mode::Value }, n) == Some(
            JsonState { stack: k, mode: Mode::Number(num_run(n).unwrap()) },
        ),
    decreases n.len(),
{
    let d = n.drop_last();
    assert(num_run(n) == num_run_from(NumState::Start, n));
    if d.len() == 0 {
        assert(d =~= Seq::<char>::empty());
        assert(num_run_from(NumState::Start, d) == Some(NumState::Start));
        let c = n.last();
        assert(num_step(NumState::Start, c) is Some);
        assert(c == '-' || is_digit(c));
        assert(json_run_from(JsonState { stack: k, mode: Mode::Value }, d) == Some(
            JsonState { stack: k, mode: Mode::Value },
        ));
    } else {
        lemma_number_run(k, d);
    }
}

/// The first character of a value's text: never white space nor a closer.
pub proof fn lemma_text_first(v: ValueView)
    requires
        json_value(v),
    ensures
        value_text(v).len() > 0,
        !is_json_white_space(value_text(v)[0]),
        value_text(v)[0] != ']' && value_text(v)[0] != '}' && value_text(v)[0] != ','
            && value_text(v)[0] != ':',
{
    match v {
        ValueView::Unit(UnitView::Number(n)) => {
            crate::repair_proof::lemma_num_run_chars(n);
            assert(n.len() > 0) by {
                if n.len() == 0 {
                    assert(n =~= Seq::<char>::empty());
                }
            }
        },
        _ => {},
    }
}

/// A text that starts neither with white space nor with `]` runs from the
/// start of an array as from a value position.
pub proof fn lemma_array_start_run(k: Seq<Frame>, t: Seq<char>)
    requires
        t.len() > 0,
        !is_json_white_space(t[0]),
        t[0] != ']',
    ensures
        json_run_from(JsonState { stack: k, mode: Mode::ArrayStart }, t) == json_run_from(
            JsonState { stack: k, mode: Mode::Value },
            t,
        ),
{
    let a = JsonState { stack: k, mode: Mode::ArrayStart };
    let b = JsonState { stack: k, mode: Mode::Value };
    assert(t =~= seq![t[0]] + t.drop_first());
    lemma_run_concat(a, seq![t[0]], t.drop_first());
    lemma_run_concat(b, seq![t[0]], t.drop_first());
    lemma_run_one(a, t[0]);
    lemma_run_one(b, t[0]);
}

/// The text of a JSON value runs from a value position to a state after a
/// whole value, inside the same containers.
pub proof fn lemma_value_run(k: Seq<Frame>, v: ValueView)
    requires
        json_value(v),
    ensures
        json_run_from(JsonState { stack: k, mode: Mode::Value }, value_text(v)) matches Some(p)
            && after_ok(p, k),
    decreases v, 0nat,
{
    let st = JsonState { stack: k, mode: Mode::Value };
    let t = value_text(v);
    match v {
        ValueView::Unit(u) => {
            match u {
                UnitView::Number(n) => {
                    crate::repair_proof::lemma_num_run_chars(n);
                    assert(n.len() > 0) by {
                        if n.len() == 0 {
                            assert(n =~= Seq::<char>::empty());
                        }
                    }
                    lemma_number_run(k, n);
                },
                UnitView::String(c) => {
                    assert(t =~= seq!['"'] + (c + seq!['"']));
                    lemma_run_concat(st, seq!['"'], c + seq!['"']);
                    lemma_run_one(st, '"');
                    lemma_quoted_run(k, c, false);
                },
                _ => {
                    lemma_literal_run(k, t);
                },
            }
        },
        ValueView::Null => {
            lemma_literal_run(k, t);
        },
        ValueView::Array(ms) => {
            let inner = k.push(Frame::Array);
            let open = JsonState { stack: inner, mode: Mode::ArrayStart };
            lemma_run_one(st, '[');
            if ms.len() == 0 {
                assert(t =~= seq!['['] + seq![']']);
                lemma_run_concat(st, seq!['['], seq![']']);
                lemma_run_one(open, ']');
                assert(inner.drop_last() =~= k);
            } else {
                let mt = members_text(ms);
                lemma_members_run(inner, ms);
                assert(t =~= (seq!['['] + mt) + seq![']']);
                lemma_run_concat(st, seq!['['], mt);
                let p = json_run_from(open, mt).unwrap();
                lemma_run_concat(st, seq!['['] + mt, seq![']']);
                lemma_run_one(p, ']');
                lemma_after_ok_step(p, inner, ']');
                assert(inner.drop_last() =~= k);
            }
        },
        ValueView::Object(es) => {
            let inner = k.push(Frame::Object);
            let open = JsonState { stack: inner, mode: Mode::ObjectStart };
            lemma_run_one(st, '{');
            if es.len() == 0 {
                assert(t =~= seq!['{'] + seq!['}']);
                lemma_run_concat(st, seq!['{'], seq!['}']);
                lemma_run_one(open, '}');
                assert(inner.drop_last() =~= k);
            } else {
                let et = entries_text(es);
                lemma_entries_run(inner, es);
                assert(t =~= (seq!['{'] + et) + seq!['}']);
                lemma_run_concat(st, seq!['{'], et);
                let p = json_run_from(open, et).unwrap();
                lemma_run_concat(st, seq!['{'] + et, seq!['}']);
                lemma_run_one(p, '}');
                lemma_after_ok_step(p, inner, '}');
                assert(inner.drop_last() =~= k);
            }
        },
    }
}

/// `true`, `false` and `null` run from a value position to after a value.
pub proof fn lemma_literal_run(k: Seq<Frame>, t: Seq<char>)
    requires
        t == seq!['t', 'r', 'u', 'e'] || t == seq!['f', 'a', 'l', 's', 'e'] || t == null_text(),
    ensures
        json_run_from(JsonState { stack: k, mode: Mode::Value }, t) == Some(
            JsonState { stack: k, mode: Mode::AfterValue },
        ),
{
    let st = JsonState { stack: k, mode: Mode::Value };
    reveal_with_fuel(json_run_from, 6);
    if t == seq!['t', 'r', 'u', 'e'] {
        assert(t.drop_last() =~= seq!['t', 'r', 'u']);
        assert(t.drop_last().drop_last() =~= seq!['t', 'r']);
        assert(t.drop_last().drop_last().drop_last() =~= seq!['t']);
        assert(seq!['t'].drop_last() =~= Seq::<char>::empty());
    } else if t == seq!['f', 'a', 'l', 's', 'e'] {
        assert(t.drop_last() =~= seq!['f', 'a', 'l', 's']);
        assert(t.drop_last().drop_last() =~= seq!['f', 'a', 'l']);
        assert(t.drop_last().drop_last().drop_last() =~= seq!['f', 'a']);
        assert(seq!['f', 'a'].drop_last() =~= seq!['f']);
        assert(seq!['f'].drop_last() =~= Seq::<char>::empty());
    } else {
        assert(t =~= seq!['n', 'u', 'l', 'l']);
        assert(t.drop_last() =~= seq!['n', 'u', 'l']);
        assert(t.drop_last().drop_last() =~= seq!['n', 'u']);
        assert(seq!['n', 'u'].drop_last() =~= seq!['n']);
        assert(seq!['n'].drop_last() =~= Seq::<char>::empty());
    }
}

/// The members of a non-empty array run from its start to after the last.
pub proof fn lemma_members_run(k: Seq<Frame>, ms: Seq<ValueView>)
    requires
        json_members(ms),
        ms.len() > 0,
        k.len() > 0,
        k.last() is Array,
    ensures
        json_run_from(JsonState { stack: k, mode: Mode::ArrayStart }, members_text(ms)) matches Some(
            p,
        ) && after_ok(p, k),
    decreases ms, 0nat,
{
    let open = JsonState { stack: k, mode: Mode::ArrayStart };
    let v = ms.last();
    lemma_text_first(v);
    if ms.len() == 1 {
        assert(ms[0] == v);
        lemma_array_start_run(k, value_text(v));
        lemma_value_run(k, v);
    } else {
        let d = ms.drop_last();
        lemma_members_run(k, d);
        let md = members_text(d);
        let p = json_run_from(open, md).unwrap();
        assert(members_text(ms) == (md + separator()) + value_text(v));
        lemma_run_concat(open, md, separator());
        assert(separator() =~= seq![','] + seq![' ']);
        lemma_run_concat(p, seq![','], seq![' ']);
        lemma_run_one(p, ',');
        lemma_after_ok_step(p, k, ',');
        let val = JsonState { stack: k, mode: Mode::Value };
        lemma_run_one(val, ' ');
        lemma_run_concat(open, md + separator(), value_text(v));
        lemma_value_run(k, v);
    }
}

/// The entries of a non-empty object run from its start to after the last.
pub proof fn lemma_entries_run(k: Seq<Frame>, es: Seq<(UnitView, ValueView)>)
    requires
        json_entries(es),
        es.len() > 0,
        k.len() > 0,
        k.last() is Object,
    ensures
        json_run_from(JsonState { stack: k, mode: Mode::ObjectStart }, entries_text(es)) matches Some(
            p,
        ) && after_ok(p, k),
    decreases es, 0nat,
{
    let open = JsonState { stack: k, mode: Mode::ObjectStart };
    let (key, v) = es.last();
    let c = key->String_0;
    let et = entry_text(key, v);
    let tail = c + seq!['"'];
    let val = JsonState { stack: k, mode: Mode::Value };
    let inkey = JsonState { stack: k, mode: Mode::InKey(StrState::Plain) };
    let afterkey = JsonState { stack: k, mode: Mode::AfterKey };
    assert(et =~= seq!['"'] + (tail + (seq![':', ' '] + value_text(v))));
    lemma_quoted_run(k, c, true);
    lemma_run_concat(inkey, tail, seq![':', ' '] + value_text(v));
    assert(seq![':', ' '] + value_text(v) =~= seq![':'] + (seq![' '] + value_text(v)));
    lemma_run_concat(afterkey, seq![':'], seq![' '] + value_text(v));
    lemma_run_one(afterkey, ':');
    lemma_run_concat(val, seq![' '], value_text(v));
    lemma_run_one(val, ' ');
    lemma_value_run(k, v);
    // From the start of the object, or after `, `, a key starts with `"`.
    let keyst = JsonState { stack: k, mode: Mode::Key };
    lemma_run_concat(open, seq!['"'], tail + (seq![':', ' '] + value_text(v)));
    lemma_run_concat(keyst, seq!['"'], tail + (seq![':', ' '] + value_text(v)));
    lemma_run_one(open, '"');
    lemma_run_one(keyst, '"');
    if es.len() > 1 {
        let d = es.drop_last();
        lemma_entries_run(k, d);
        let ed = entries_text(d);
        let p = json_run_from(open, ed).unwrap();
        assert(entries_text(es) == (ed + separator()) + et);
        lemma_run_concat(open, ed, separator());
        assert(separator() =~= seq![','] + seq![' ']);
        lemma_run_concat(p, seq![','], seq![' ']);
        lemma_run_one(p, ',');
        lemma_after_ok_step(p, k, ',');
        lemma_run_one(keyst, ' ');
        lemma_run_concat(open, ed + separator(), et);
    } else {
        assert(es[0] == es.last());
    }
}

/// The text of a JSON value is a JSON text.
pub proof fn lemma_json_value_text(v: ValueView)
    requires
        json_value(v),
    ensures
        is_json_text(value_text(v)),
{
    lemma_value_run(seq![], v);
    assert(json_init() == JsonState { stack: seq![], mode: Mode::Value });
}

} // verus!
