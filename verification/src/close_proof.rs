//! Closing what is open: from the states where the automaton can be cut off
//! and closed, the text that `fix_json` appends completes a JSON text.
use vstd::prelude::*;

use crate::chars::{all_white_space, white_space};
use crate::fixer::{close, pop_value, Wrapper};
use crate::grammar::{is_json_text, json_init, json_run, Frame, JsonState, Mode};
use crate::number::num_accepting;
use crate::run_lemmas::{lemma_run_push, lemma_step_ok_back};
use crate::scan_proof::{expected_wrappers, frame_open, lemma_close_wrappers, local_wrappers, parents, state_ok};

verus! {

/// The states from which closing what is open completes a JSON text.
pub open spec fn closable(st: JsonState) -> bool {
    match st.mode {
        Mode::InKey(e) => e is Plain,
        Mode::InString(e) => e is Plain,
        Mode::AfterKey | Mode::ObjectStart | Mode::ArrayStart | Mode::AfterValue => true,
        Mode::Number(q) => num_accepting(q),
        Mode::Value => st.stack.len() > 0 && st.stack.last() is Object,
        _ => false,
    }
}

/// Reading `null` in a value position reads a value.
proof fn lemma_run_null(a: Seq<char>, st: JsonState)
    requires
        json_run(a) == Some(st),
        st.mode is Value,
    ensures
        json_run(a + seq!['n', 'u', 'l', 'l']) == Some(
            JsonState { stack: st.stack, mode: Mode::AfterValue },
        ),
{
    let a1 = a.push('n');
    let a2 = a1.push('u');
    let a3 = a2.push('l');
    let a4 = a3.push('l');
    assert(a4 =~= a + seq!['n', 'u', 'l', 'l']);
    lemma_run_push(a, 'n');
    lemma_run_push(a1, 'u');
    lemma_run_push(a2, 'l');
    lemma_run_push(a3, 'l');
}

/// Closing the open structures of a closable state completes a JSON text.
pub proof fn lemma_close(st: JsonState, acc: Seq<char>)
    requires
        json_run(acc) == Some(st),
        state_ok(st),
        closable(st),
    ensures
        is_json_text(close(expected_wrappers(st), acc)),
    decreases expected_wrappers(st).len(),
{
    let w = expected_wrappers(st);
    let stack = st.stack;
    if stack.len() == 0 {
        match st.mode {
            Mode::InString(_) => {
                let acc2 = acc.push('"');
                lemma_run_push(acc, '"');
                let st2 = JsonState { stack, mode: Mode::AfterValue };
                assert(w.drop_last() =~= Seq::<Wrapper>::empty());
                assert(expected_wrappers(st2) =~= Seq::<Wrapper>::empty());
                assert(close(w, acc) == close(pop_value(w.drop_last()), acc2));
            },
            _ => {
                assert(w =~= Seq::<Wrapper>::empty());
            },
        }
        return;
    }
    let p = parents(stack.drop_last());
    let f = stack.last();
    assert(w == p + local_wrappers(stack, st.mode));
    match st.mode {
        Mode::InKey(_) => {
            let acc2 = acc.push('"');
            lemma_run_push(acc, '"');
            let st2 = JsonState { stack, mode: Mode::AfterKey };
            assert(w.drop_last() =~= p + seq![Wrapper::Brace, Wrapper::ObjectKey]);
            assert(expected_wrappers(st2) =~= w.drop_last());
            assert(close(w, acc) == close(pop_value(w.drop_last()), acc2));
            lemma_close(st2, acc2);
        },
        Mode::InString(_) => {
            let acc2 = acc.push('"');
            lemma_run_push(acc, '"');
            let st2 = JsonState { stack, mode: Mode::AfterValue };
            assert(w.drop_last() =~= p + frame_open(f));
            assert(expected_wrappers(st2) =~= w.drop_last());
            match f {
                Frame::Object => {},
                Frame::Array => {},
            }
            assert(pop_value(w.drop_last()) == w.drop_last());
            assert(close(w, acc) == close(pop_value(w.drop_last()), acc2));
            lemma_close(st2, acc2);
        },
        Mode::AfterKey => {
            let a1 = acc.push(':');
            let a2 = a1.push(' ');
            lemma_run_push(acc, ':');
            lemma_run_push(a1, ' ');
            lemma_run_null(a2, JsonState { stack, mode: Mode::Value });
            let acc2 = acc + seq![':', ' ', 'n', 'u', 'l', 'l'];
            assert(a2 + seq!['n', 'u', 'l', 'l'] =~= acc2);
            let st2 = JsonState { stack, mode: Mode::AfterValue };
            assert(w.drop_last() =~= p + seq![Wrapper::Brace]);
            assert(expected_wrappers(st2) =~= w.drop_last());
            assert(close(w, acc) == close(w.drop_last(), acc2));
            lemma_close(st2, acc2);
        },
        Mode::Value => {
            let a1 = if acc.len() > 0 && white_space(acc.last()) {
                acc
            } else {
                acc.push(' ')
            };
            lemma_run_push(acc, ' ');
            assert(json_run(a1) == Some(st));
            lemma_run_null(a1, st);
            let acc2 = a1 + seq!['n', 'u', 'l', 'l'];
            let st2 = JsonState { stack, mode: Mode::AfterValue };
            assert(w =~= p + seq![Wrapper::Brace, Wrapper::ObjectValue]);
            assert(w.drop_last() =~= p + seq![Wrapper::Brace]);
            assert(expected_wrappers(st2) =~= w.drop_last());
            assert(close(w, acc) == close(w.drop_last(), acc2));
            lemma_close(st2, acc2);
        },
        _ => {
            // The innermost container is closed.
            let c = match f {
                Frame::Object => '}',
                Frame::Array => ']',
            };
            let acc2 = acc.push(c);
            lemma_run_push(acc, c);
            let st2 = JsonState { stack: stack.drop_last(), mode: Mode::AfterValue };
            assert(local_wrappers(stack, st.mode) == frame_open(f));
            assert(w.drop_last() =~= p);
            lemma_close_wrappers(stack);
            match f {
                Frame::Object => {},
                Frame::Array => {},
            }
            assert(close(w, acc) == close(pop_value(w.drop_last()), acc2));
            lemma_close(st2, acc2);
        },
    }
}

/// White space alone never leaves the automaton's starting state.
pub proof fn lemma_white_space_run(x: Seq<char>)
    requires
        all_white_space(x),
        json_run(x) is Some,
    ensures
        json_run(x) == Some(json_init()),
    decreases x.len(),
{
    if x.len() > 0 {
        let prev = x.drop_last();
        assert(x =~= prev.push(x.last()));
        lemma_step_ok_back(prev, x.last());
        assert(all_white_space(prev)) by {
            assert forall|i: int| 0 <= i < prev.len() implies white_space(#[trigger] prev[i]) by {
                assert(prev[i] == x[i]);
            }
        }
        lemma_white_space_run(prev);
        assert(white_space(x[x.len() - 1]));
    }
}

/// A JSON text is not all white space.
pub proof fn lemma_text_not_white_space(x: Seq<char>)
    requires
        is_json_text(x),
    ensures
        !all_white_space(x),
{
    if all_white_space(x) {
        lemma_white_space_run(x);
    }
}

} // verus!
