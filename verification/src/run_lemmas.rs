//! Facts about the JSON automaton: how runs compose, and what the last
//! character was for each kind of state.
use vstd::prelude::*;

use crate::chars::{is_bareword_char, is_digit, lemma_trim_end_len, trim_end_len, white_space};
use crate::grammar::{is_json_white_space, json_run, json_step, literal_text, JsonState, Mode};
use crate::number::{num_accepting, num_run, num_run_from, num_step, NumState};
use crate::scan_proof::{state_ok, string_state};
use crate::fixer::token_start;

verus! {

/// Running over `s` with one more character is one more step.
pub proof fn lemma_run_push(s: Seq<char>, c: char)
    ensures
        json_run(s.push(c)) == match json_run(s) {
            Some(st) => json_step(st, c),
            None => None,
        },
{
    assert(s.push(c).drop_last() =~= s);
}

/// The states the automaton reaches satisfy `state_ok`.
pub proof fn lemma_state_ok_step(st: JsonState, c: char)
    requires
        state_ok(st),
        json_step(st, c) is Some,
    ensures
        state_ok(json_step(st, c).unwrap()),
{
}

/// Every state the automaton reaches satisfies `state_ok`.
pub proof fn lemma_run_ok(s: Seq<char>)
    requires
        json_run(s) is Some,
    ensures
        state_ok(json_run(s).unwrap()),
    decreases s.len(),
{
    if s.len() > 0 {
        lemma_run_ok(s.drop_last());
        lemma_state_ok_step(json_run(s.drop_last()).unwrap(), s.last());
    }
}

/// A character that starts a number or continues a number or literal is
/// a bare-token character.
pub proof fn lemma_ascii_bareword(c: char)
    ensures
        (is_digit(c) || c == '-' || c == '+' || c == '.' || c == 'e' || c == 'E' || ('a' <= c
            && c <= 'z')) ==> is_bareword_char(c),
        is_json_white_space(c) ==> white_space(c) && !is_bareword_char(c),
        (c == ':' || c == ',' || c == '[' || c == ']' || c == '{' || c == '}' || c == '"')
            ==> !is_bareword_char(c) && !white_space(c),
{
}

/// What the last character was, by the kind of state it led to.
pub proof fn lemma_step_facts(sp: JsonState, c: char)
    requires
        state_ok(sp),
        json_step(sp, c) is Some,
    ensures
        ({
            let st = json_step(sp, c).unwrap();
            &&& st.mode is Value && !is_json_white_space(c) ==> st.stack.len() > 0 && sp.stack
                == st.stack && ((st.stack.last() is Object && c == ':') || (st.stack.last() is Array
                && c == ',' && (sp.mode is AfterValue || (sp.mode matches Mode::Number(q)
                && num_accepting(q)))))
            &&& st.mode is Value && is_json_white_space(c) ==> sp == st
            &&& st.mode is ArrayStart && !is_json_white_space(c) ==> c == '['
            &&& st.mode is ArrayStart && is_json_white_space(c) ==> sp == st
            &&& st.mode is Key && !is_json_white_space(c) ==> c == ',' && sp.stack == st.stack && (
            sp.mode is AfterValue || (sp.mode matches Mode::Number(q) && num_accepting(q)))
            &&& st.mode is Key && is_json_white_space(c) ==> sp == st
            &&& (st.mode is Number || st.mode is Literal) ==> is_bareword_char(c) && sp.stack
                == st.stack && (sp.mode is Value || sp.mode is ArrayStart || sp.mode is Number
                || sp.mode is Literal)
            &&& (st.mode is Value || st.mode is ArrayStart) ==> !is_bareword_char(c)
            &&& string_state(st.mode) is None && string_state(sp.mode) is Some ==> c == '"'
            &&& string_state(st.mode) is Some && string_state(sp.mode) is None ==> c == '"'
            &&& sp.mode is AfterValue ==> !is_bareword_char(c)
            &&& st.mode is ObjectStart && !is_json_white_space(c) ==> c == '{'
            &&& st.mode is AfterKey && !is_json_white_space(c) ==> c == '"'
            &&& st.mode is AfterValue && !is_json_white_space(c) ==> c == '"' || c == '}' || c
                == ']' || is_bareword_char(c)
        }),
{
    lemma_ascii_bareword(c);
}

/// `st` is what `st_u` becomes after white space: the same, or a number
/// that the white space ended.
pub open spec fn same_after_space(st_u: JsonState, st: JsonState) -> bool {
    &&& st_u.stack == st.stack
    &&& (st_u.mode == st.mode || (st.mode is AfterValue && (st_u.mode matches Mode::Number(q)
        && num_accepting(q))))
}

/// Outside strings, trailing white space changes the state at most by ending
/// a number.
pub proof fn lemma_trailing_space(x: Seq<char>)
    requires
        json_run(x) is Some,
        string_state(json_run(x).unwrap().mode) is None,
    ensures
        json_run(x.take(trim_end_len(x) as int)) is Some,
        same_after_space(json_run(x.take(trim_end_len(x) as int)).unwrap(), json_run(x).unwrap()),
        forall|i: int| trim_end_len(x) <= i < x.len() ==> is_json_white_space(#[trigger] x[i]),
    decreases x.len(),
{
    lemma_trim_end_len(x);
    if x.len() > 0 && white_space(x.last()) {
        let prev = x.drop_last();
        let c = x.last();
        assert(x =~= prev.push(c));
        let sp = json_run(prev).unwrap();
        let st = json_run(x).unwrap();
        lemma_ascii_bareword(c);
        assert(string_state(sp.mode) is None) by {
            if string_state(sp.mode) is Some {
                lemma_step_ok_back(prev, c);
                lemma_run_ok(prev);
                lemma_step_facts(sp, c);
            }
        }
        lemma_step_ok_back(prev, c);
        lemma_run_ok(prev);
        lemma_trailing_space(prev);
        assert(trim_end_len(x) == trim_end_len(prev));
        assert(x.take(trim_end_len(x) as int) =~= prev.take(trim_end_len(prev) as int));
        assert(is_json_white_space(c));
        assert forall|i: int| trim_end_len(x) <= i < x.len() implies is_json_white_space(
            #[trigger] x[i],
        ) by {
            if i < x.len() - 1 {
                assert(x[i] == prev[i]);
            }
        }
    } else {
        assert(x.take(x.len() as int) =~= x);
    }
}

/// The state before the last character is reached too, and is well formed
/// when the one after it is.
pub proof fn lemma_step_ok_back(prev: Seq<char>, c: char)
    requires
        json_run(prev.push(c)) is Some,
    ensures
        json_run(prev) is Some,
        json_step(json_run(prev).unwrap(), c) == json_run(prev.push(c)),
{
    lemma_run_push(prev, c);
}

/// What a bare token read so far is, by the state it led to: a number
/// prefix, a literal prefix, or (once the state is past the value) a whole
/// literal.
pub open spec fn bare_text_ok(st: JsonState, tok: Seq<char>) -> bool {
    match st.mode {
        Mode::Number(q) => num_run(tok) == Some(q),
        Mode::Literal(k, m) => k < 3 && tok == literal_text(k).take(m as int),
        Mode::AfterValue => tok == literal_text(0) || tok == literal_text(1) || tok == literal_text(
            2,
        ),
        _ => false,
    }
}

/// Where the bare token that ends a prefix starts, and what it is.
pub proof fn lemma_bare_token(y: Seq<char>) -> (k: int)
    requires
        json_run(y) is Some,
        y.len() > 0,
        is_bareword_char(y.last()),
        string_state(json_run(y).unwrap().mode) is None,
    ensures
        0 <= k < y.len(),
        k == 0 || !is_bareword_char(y[k - 1]),
        forall|i: int| k <= i < y.len() ==> is_bareword_char(#[trigger] y[i]),
        json_run(y.take(k)) is Some,
        json_run(y.take(k)).unwrap().mode is Value || json_run(y.take(k)).unwrap().mode is ArrayStart,
        json_run(y.take(k)).unwrap().stack == json_run(y).unwrap().stack,
        bare_text_ok(json_run(y).unwrap(), y.skip(k)),
    decreases y.len(),
{
    let prev = y.drop_last();
    let c = y.last();
    assert(y =~= prev.push(c));
    lemma_step_ok_back(prev, c);
    lemma_run_ok(prev);
    let sp = json_run(prev).unwrap();
    let st = json_run(y).unwrap();
    lemma_step_facts(sp, c);
    lemma_ascii_bareword(c);
    assert(prev =~= y.take(prev.len() as int));
    match sp.mode {
        Mode::Value | Mode::ArrayStart => {
            if prev.len() > 0 {
                let pp = prev.drop_last();
                assert(prev =~= pp.push(prev.last()));
                lemma_step_ok_back(pp, prev.last());
                lemma_run_ok(pp);
                lemma_step_facts(json_run(pp).unwrap(), prev.last());
            }
            assert(y.skip(prev.len() as int) =~= seq![c]);
            assert(seq![c].drop_last() =~= Seq::<char>::empty());
            assert(num_run_from(NumState::Start, Seq::<char>::empty()) == Some(NumState::Start));
            assert(num_run(seq![c]) == num_step(NumState::Start, c));
            if st.mode is Literal {
                assert(literal_text(0).take(1) =~= seq!['t']);
                assert(literal_text(1).take(1) =~= seq!['f']);
                assert(literal_text(2).take(1) =~= seq!['n']);
            }
            prev.len() as int
        },
        Mode::Number(_) | Mode::Literal(_, _) => {
            let pp = prev.drop_last();
            assert(prev.len() > 0);
            assert(prev =~= pp.push(prev.last()));
            lemma_step_ok_back(pp, prev.last());
            lemma_run_ok(pp);
            lemma_step_facts(json_run(pp).unwrap(), prev.last());
            let k = lemma_bare_token(prev);
            assert(y.take(k) =~= prev.take(k));
            assert(y.skip(k) =~= prev.skip(k).push(c));
            assert(y.skip(k).drop_last() =~= prev.skip(k));
            if let Mode::Literal(kk, m) = sp.mode {
                assert(literal_text(kk).take(m + 1 as int) =~= literal_text(kk).take(m as int).push(c));
                if m + 1 == literal_text(kk).len() {
                    assert(literal_text(kk).take(m + 1 as int) =~= literal_text(kk));
                }
            }
            k
        },
        _ => {
            assert(false);
            0
        },
    }
}

/// `token_start` finds the start of a maximal run of bare-token characters.
pub proof fn lemma_token_start(y: Seq<char>, k: int, p: int)
    requires
        0 <= k <= p <= y.len(),
        k == 0 || !is_bareword_char(y[k - 1]),
        forall|i: int| k <= i < p ==> is_bareword_char(#[trigger] y[i]),
    ensures
        token_start(y, p) == k,
    decreases p,
{
    if p > k {
        lemma_token_start(y, k, p - 1);
    }
}

} // verus!
