//! How the scanner of `fix_json` follows the JSON automaton: on every prefix
//! of a JSON text, the scanner's stack of open structures is determined by
//! the automaton's state.
use vstd::prelude::*;

use crate::chars::{white_space};
use crate::fixer::{pop, pop_value, scan, scan_step, structure_step, top_is, ScanState, Wrapper};
use crate::grammar::{after_value, is_json_white_space, json_init, json_run, json_step, literal_text, value_start, Frame, JsonState, Mode, StrState};
use crate::number::{num_step};

verus! {

/// What the scanner keeps for the container `f` while inside it.
pub open spec fn frame_open(f: Frame) -> Seq<Wrapper> {
    match f {
        Frame::Object => seq![Wrapper::Brace],
        Frame::Array => seq![Wrapper::SquareBracket],
    }
}

/// What the scanner keeps for the container `f` while inside one of its
/// values that is itself a container.
pub open spec fn frame_parent(f: Frame) -> Seq<Wrapper> {
    match f {
        Frame::Object => seq![Wrapper::Brace, Wrapper::ObjectValue],
        Frame::Array => seq![Wrapper::SquareBracket],
    }
}

/// What the scanner keeps for the containers `stack`, all of which hold a
/// container that is open.
pub open spec fn parents(stack: Seq<Frame>) -> Seq<Wrapper>
    decreases stack.len(),
{
    if stack.len() == 0 {
        seq![]
    } else {
        parents(stack.drop_last()) + frame_parent(stack.last())
    }
}

/// What the scanner keeps for the innermost container, in `mode`.
pub open spec fn local_wrappers(stack: Seq<Frame>, mode: Mode) -> Seq<Wrapper> {
    if stack.len() == 0 {
        match mode {
            Mode::InString(_) => seq![Wrapper::Quote],
            _ => seq![],
        }
    } else {
        let f = stack.last();
        match mode {
            Mode::Value => frame_parent(f),
            Mode::InKey(_) => seq![Wrapper::Brace, Wrapper::ObjectKey, Wrapper::Quote],
            Mode::AfterKey => seq![Wrapper::Brace, Wrapper::ObjectKey],
            Mode::InString(_) => frame_open(f).push(Wrapper::Quote),
            _ => frame_open(f),
        }
    }
}

/// The scanner's stack that goes with the automaton's state `st`.
pub open spec fn expected_wrappers(st: JsonState) -> Seq<Wrapper> {
    if st.stack.len() == 0 {
        local_wrappers(st.stack, st.mode)
    } else {
        parents(st.stack.drop_last()) + local_wrappers(st.stack, st.mode)
    }
}

/// Whether `e` is a string state that the automaton can reach.
pub open spec fn str_ok(e: StrState) -> bool {
    e matches StrState::Unicode(k) ==> k < 4
}

/// Facts that hold of every state the automaton reaches.
pub open spec fn state_ok(st: JsonState) -> bool {
    &&& (st.mode is ObjectStart || st.mode is Key || st.mode is InKey || st.mode is AfterKey)
        ==> st.stack.len() > 0 && st.stack.last() is Object
    &&& st.mode is ArrayStart ==> st.stack.len() > 0 && st.stack.last() is Array
    &&& st.mode matches Mode::Literal(k, m) ==> k < 3 && 1 <= m < literal_text(k).len()
    &&& st.mode matches Mode::Number(q) ==> !(q is Start)
    &&& st.mode matches Mode::InKey(e) ==> str_ok(e)
    &&& st.mode matches Mode::InString(e) ==> str_ok(e)
}

/// The state `st` with a string's escape forgotten.
pub open spec fn string_plain(st: JsonState) -> JsonState {
    match st.mode {
        Mode::InKey(_) => JsonState { stack: st.stack, mode: Mode::InKey(StrState::Plain) },
        Mode::InString(_) => JsonState { stack: st.stack, mode: Mode::InString(StrState::Plain) },
        _ => st,
    }
}

/// The string state of `mode`, when it is inside a string.
pub open spec fn string_state(mode: Mode) -> Option<StrState> {
    match mode {
        Mode::InKey(e) => Some(e),
        Mode::InString(e) => Some(e),
        _ => None,
    }
}

/// The escape of the scanner `sc` goes with the string state `e` after `s`:
/// a pending escape starts at the backslash that the last characters
/// began, and the string's content before that backslash leads the
/// automaton to `plain`.
pub open spec fn escape_matches(s: Seq<char>, sc: ScanState, e: StrState, plain: JsonState) -> bool {
    match e {
        StrState::Plain => {
            &&& sc.pending_escape is None
            &&& match sc.unicode_escape {
                None => true,
                Some((_, h)) => h == 4,
            }
        },
        StrState::Escape => {
            &&& sc.unicode_escape is None
            &&& match sc.pending_escape {
                Some(b) => b + 1 == s.len() && json_run(s.take(b as int)) == Some(plain),
                None => false,
            }
        },
        StrState::Unicode(k) => {
            &&& sc.pending_escape is None
            &&& match sc.unicode_escape {
                Some((b, h)) => h == k && b + 2 + k == s.len() && json_run(s.take(b as int)) == Some(
                    plain,
                ),
                None => false,
            }
        },
    }
}

/// The scanner's state `sc` after `s` goes with the automaton's state `st`.
pub open spec fn scan_matches(s: Seq<char>, sc: ScanState, st: JsonState) -> bool {
    &&& sc.wrappers == expected_wrappers(st)
    &&& match string_state(st.mode) {
        None => sc.pending_escape is None && sc.unicode_escape is None,
        Some(e) => escape_matches(s, sc, e, string_plain(st)),
    }
}

/// The scanner's stack for a value position is that of the containers.
pub proof fn lemma_value_wrappers(stack: Seq<Frame>)
    ensures
        expected_wrappers(JsonState { stack, mode: Mode::Value }) == parents(stack),
{
    if stack.len() > 0 {
        assert(parents(stack) == parents(stack.drop_last()) + frame_parent(stack.last()));
    }
}

/// Closing the innermost container leaves the scanner's stack for a value
/// that was read.
pub proof fn lemma_close_wrappers(stack: Seq<Frame>)
    requires
        stack.len() > 0,
    ensures
        pop_value(parents(stack.drop_last())) == expected_wrappers(
            JsonState { stack: stack.drop_last(), mode: Mode::AfterValue },
        ),
{
    let r = stack.drop_last();
    if r.len() > 0 {
        let p = parents(r.drop_last());
        assert(parents(r) == p + frame_parent(r.last()));
        match r.last() {
            Frame::Object => {
                assert((p + seq![Wrapper::Brace, Wrapper::ObjectValue]).drop_last() =~= p + seq![
                    Wrapper::Brace,
                ]);
            },
            Frame::Array => {},
        }
    }
}

/// White space of JSON is white space to the scanner, and the characters
/// that mean something to JSON are not.
pub proof fn lemma_json_chars()
    ensures
        forall|c: char| is_json_white_space(c) ==> #[trigger] white_space(c),
        !white_space('{') && !white_space('}') && !white_space('[') && !white_space(']')
            && !white_space('"') && !white_space(':') && !white_space(',') && !white_space('\\'),
{
}

/// A value that starts with `c` leaves the scanner's stack as the automaton
/// expects.
proof fn lemma_value_start_step(stack: Seq<Frame>, c: char)
    requires
        value_start(stack, c) is Some,
    ensures
        ({
            let st2 = value_start(stack, c).unwrap();
            &&& structure_step(parents(stack), c) == expected_wrappers(st2)
            &&& state_ok(st2)
            &&& (string_state(st2.mode) matches Some(e) ==> e is Plain)
        }),
{
    lemma_json_chars();
    let st2 = value_start(stack, c).unwrap();
    let w = parents(stack);
    if stack.len() > 0 {
        assert(w == parents(stack.drop_last()) + frame_parent(stack.last()));
    }
    if c == '{' || c == '[' {
        assert(st2.stack.drop_last() =~= stack);
    } else if c == '"' {
        if stack.len() > 0 {
            let p = parents(stack.drop_last());
            match stack.last() {
                Frame::Object => {
                    assert((p + seq![Wrapper::Brace, Wrapper::ObjectValue]).drop_last() =~= p
                        + seq![Wrapper::Brace]);
                    assert(expected_wrappers(st2) =~= (p + seq![Wrapper::Brace]).push(
                        Wrapper::Quote,
                    ));
                },
                Frame::Array => {
                    assert(expected_wrappers(st2) =~= w.push(Wrapper::Quote));
                },
            }
        } else {
            assert(expected_wrappers(st2) =~= seq![Wrapper::Quote]);
        }
    } else {
        assert(!white_space(c));
        if stack.len() > 0 {
            let p = parents(stack.drop_last());
            match stack.last() {
                Frame::Object => {
                    assert((p + seq![Wrapper::Brace, Wrapper::ObjectValue]).drop_last() =~= p
                        + seq![Wrapper::Brace]);
                },
                Frame::Array => {},
            }
        }
    }
}

/// Outside strings, the scanner's stack follows the automaton.
proof fn lemma_structure_step(st: JsonState, c: char)
    requires
        state_ok(st),
        string_state(st.mode) is None,
        json_step(st, c) is Some,
    ensures
        ({
            let st2 = json_step(st, c).unwrap();
            &&& structure_step(expected_wrappers(st), c) == expected_wrappers(st2)
            &&& state_ok(st2)
            &&& (string_state(st2.mode) matches Some(e) ==> e is Plain)
        }),
{
    lemma_json_chars();
    let stack = st.stack;
    let st2 = json_step(st, c).unwrap();
    let w = expected_wrappers(st);
    lemma_value_wrappers(stack);
    if is_json_white_space(c) && !(st.mode is Number) && !(st.mode is Literal) {
        return;
    }
    match st.mode {
        Mode::Value => {
            lemma_value_start_step(stack, c);
        },
        Mode::ArrayStart => {
            assert(parents(stack) == parents(stack.drop_last()) + frame_parent(stack.last()));
            if c == ']' {
                lemma_close_wrappers(stack);
            } else {
                lemma_value_start_step(stack, c);
            }
        },
        Mode::ObjectStart | Mode::Key => {
            if c == '}' {
                lemma_close_wrappers(stack);
            } else {
                assert(expected_wrappers(st2) =~= w.push(Wrapper::ObjectKey).push(Wrapper::Quote));
            }
        },
        Mode::AfterKey => {
            let p = parents(stack.drop_last());
            assert(pop(w) =~= p + seq![Wrapper::Brace]);
            assert(expected_wrappers(st2) =~= (p + seq![Wrapper::Brace]).push(Wrapper::ObjectValue));
        },
        Mode::Number(q) => {
            if num_step(q, c) is Some {
                assert(!white_space(c));
            } else {
                lemma_after_value_step(stack, c);
            }
        },
        Mode::Literal(k, m) => {
            assert(!white_space(c));
        },
        Mode::AfterValue => {
            lemma_after_value_step(stack, c);
        },
        _ => {},
    }
}

/// What follows a value leaves the scanner's stack as the automaton expects.
proof fn lemma_after_value_step(stack: Seq<Frame>, c: char)
    requires
        after_value(stack, c) is Some,
    ensures
        ({
            let st2 = after_value(stack, c).unwrap();
            &&& structure_step(
                expected_wrappers(JsonState { stack, mode: Mode::AfterValue }),
                c,
            ) == expected_wrappers(st2)
            &&& state_ok(st2)
            &&& string_state(st2.mode) is None
        }),
{
    lemma_json_chars();
    let st2 = after_value(stack, c).unwrap();
    let w = expected_wrappers(JsonState { stack, mode: Mode::AfterValue });
    if is_json_white_space(c) {
    } else if c == ',' {
        lemma_value_wrappers(stack);
        assert(parents(stack) == parents(stack.drop_last()) + frame_parent(stack.last()));
    } else {
        lemma_close_wrappers(stack);
    }
}

/// The scanner's innermost structure is a quote exactly inside strings.
pub proof fn lemma_quote_on_top(st: JsonState)
    requires
        state_ok(st),
    ensures
        top_is(expected_wrappers(st), Wrapper::Quote) <==> string_state(st.mode) is Some,
{
    let w = expected_wrappers(st);
    let l = local_wrappers(st.stack, st.mode);
    if st.stack.len() > 0 {
        assert(w == parents(st.stack.drop_last()) + l);
        let f = st.stack.last();
        match f {
            Frame::Object => {},
            Frame::Array => {},
        }
        assert(l.len() > 0);
        assert(w.last() == l.last());
    }
}

/// Inside strings, the scanner's escape tracking follows the automaton.
proof fn lemma_string_step(prev: Seq<char>, sc: ScanState, st: JsonState, c: char)
    requires
        state_ok(st),
        string_state(st.mode) is Some,
        scan_matches(prev, sc, st),
        json_run(prev) == Some(st),
        json_step(st, c) is Some,
        prev.len() < usize::MAX,
    ensures
        ({
            let st2 = json_step(st, c).unwrap();
            &&& scan_matches(prev.push(c), scan_step(sc, prev.len() as usize, c), st2)
            &&& state_ok(st2)
        }),
{
    lemma_quote_on_top(st);
    let s = prev.push(c);
    let i = prev.len() as usize;
    let st2 = json_step(st, c).unwrap();
    let sc2 = scan_step(sc, i, c);
    let e = string_state(st.mode).unwrap();
    let w = expected_wrappers(st);
    assert(s.take(i as int) =~= prev);
    if let Some(b) = sc.pending_escape {
        if b < prev.len() {
            assert(s.take(b as int) =~= prev.take(b as int));
        }
    }
    if let Some((b, h)) = sc.unicode_escape {
        if b < prev.len() {
            assert(s.take(b as int) =~= prev.take(b as int));
        }
    }
    match e {
        StrState::Plain => {
            if c == '"' {
                let stack = st.stack;
                if stack.len() > 0 {
                    assert(w == parents(stack.drop_last()) + local_wrappers(stack, st.mode));
                    assert(pop(w) =~= expected_wrappers(st2));
                } else {
                    assert(pop(w) =~= expected_wrappers(st2));
                }
            }
        },
        StrState::Escape => {},
        StrState::Unicode(k) => {},
    }
}

/// On every prefix of a JSON text, the scanner's state goes with the
/// automaton's.
pub proof fn lemma_scan_matches(s: Seq<char>)
    requires
        json_run(s) is Some,
        s.len() <= usize::MAX,
    ensures
        scan_matches(s, scan(s), json_run(s).unwrap()),
        state_ok(json_run(s).unwrap()),
    decreases s.len(),
{
    if s.len() == 0 {
        assert(expected_wrappers(json_init()) =~= seq![]);
    } else {
        let prev = s.drop_last();
        let c = s.last();
        lemma_scan_matches(prev);
        let st = json_run(prev).unwrap();
        let sc = scan(prev);
        assert(s =~= prev.push(c));
        lemma_quote_on_top(st);
        if string_state(st.mode) is Some {
            lemma_string_step(prev, sc, st, c);
        } else {
            lemma_structure_step(st, c);
        }
    }
}

} // verus!
