//! The repair of an incomplete trailing token leaves a cut point from which
//! closing what is open completes a JSON text.
use vstd::prelude::*;

use crate::chars::{all_white_space, is_bareword_char, is_digit, lemma_trim_end_len, trim_end_len, white_space};
use crate::close_proof::closable;
use crate::fixer::{
    is_numberish, is_proper_prefix, is_truncated_literal, literal_word, longest_number_prefix,
    repair, token_start, Wrapper,
};
use crate::grammar::{is_json_white_space, json_run, literal_text, Frame, JsonState, Mode};
use crate::number::{lemma_num_run_dead, num_accepting, num_run, num_run_from, num_step, NumState};
use crate::run_lemmas::{bare_text_ok, lemma_ascii_bareword, lemma_bare_token, lemma_run_ok, lemma_run_push, lemma_step_facts, lemma_step_ok_back, lemma_token_start, lemma_trailing_space, same_after_space};
use crate::scan_proof::{
    expected_wrappers, frame_open, lemma_value_wrappers, local_wrappers, parents, state_ok,
    string_state,
};

verus! {

/// The characters of a number prefix that the number automaton accepts so far.
pub proof fn lemma_num_run_chars(tok: Seq<char>)
    requires
        num_run(tok) is Some,
    ensures
        is_numberish(tok),
        tok.len() > 0 ==> (tok[0] == '-' || is_digit(tok[0])),
        tok.len() > 0 && num_accepting(num_run(tok).unwrap()) ==> is_digit(tok.last()),
    decreases tok.len(),
{
    if tok.len() > 0 {
        let prev = tok.drop_last();
        lemma_num_run_chars(prev);
        assert forall|i: int| 0 <= i < tok.len() implies #[trigger] is_digit(tok[i]) || tok[i]
            == '.' || tok[i] == '+' || tok[i] == '-' || tok[i] == 'e' || tok[i] == 'E' by {
            if i < tok.len() - 1 {
                assert(tok[i] == prev[i]);
            }
        }
        if prev.len() > 0 {
            assert(tok[0] == prev[0]);
        }
    }
}

/// Reading the first `j` characters of a number from a value position
/// leads to the number state for them.
pub proof fn lemma_number_states(y: Seq<char>, k: int, j: int)
    requires
        0 <= k,
        1 <= j,
        k + j <= y.len(),
        json_run(y.take(k)) is Some,
        json_run(y.take(k)).unwrap().mode is Value || json_run(y.take(k)).unwrap().mode is ArrayStart,
        num_run(y.subrange(k, k + j)) is Some,
    ensures
        json_run(y.take(k + j)) == Some(
            JsonState {
                stack: json_run(y.take(k)).unwrap().stack,
                mode: Mode::Number(num_run(y.subrange(k, k + j)).unwrap()),
            },
        ),
    decreases j,
{
    let sv = json_run(y.take(k)).unwrap();
    let c = y[k + j - 1];
    let sub = y.subrange(k, k + j);
    assert(y.take(k + j) =~= y.take(k + j - 1).push(c));
    lemma_run_push(y.take(k + j - 1), c);
    assert(sub.drop_last() =~= y.subrange(k, k + j - 1));
    if j == 1 {
        assert(y.take(k + j - 1) =~= y.take(k));
        assert(y.subrange(k, k) =~= Seq::<char>::empty());
        assert(num_run_from(NumState::Start, Seq::<char>::empty()) == Some(NumState::Start));
        assert(num_run(sub) == num_step(NumState::Start, c));
    } else {
        if num_run(y.subrange(k, k + j - 1)) is None {
            assert(sub.take(j - 1) =~= y.subrange(k, k + j - 1));
            lemma_num_run_dead(sub, j - 1);
        }
        lemma_number_states(y, k, j - 1);
    }
}

/// The repair when the trailing token is cut away whole, at `k`, where a
/// value starts.
proof fn lemma_repair_cut(s: Seq<char>, k: int, st0: JsonState)
    requires
        0 <= k < s.len(),
        s.len() <= usize::MAX,
        json_run(s.take(k)) is Some,
        json_run(s.take(k)).unwrap().mode is Value || json_run(s.take(k)).unwrap().mode is ArrayStart,
        json_run(s.take(k)).unwrap().stack == st0.stack,
        st0.mode is Number || st0.mode is Literal,
    ensures
        ({
            let w = expected_wrappers(st0);
            let u = trim_end_len(s.take(k)) as int;
            let (e, w2) = if u > 0 && s[u - 1] == ':' {
                (k, w.push(Wrapper::ObjectValue))
            } else if u > 0 && s[u - 1] == ',' {
                (u - 1, w)
            } else {
                (k, w)
            };
            &&& 0 <= e <= s.len()
            &&& json_run(s.take(e)) is Some
            &&& ((closable(json_run(s.take(e)).unwrap()) && state_ok(json_run(s.take(e)).unwrap())
                && w2 == expected_wrappers(json_run(s.take(e)).unwrap())) || (all_white_space(
                s.take(e),
            ) && w2 == Seq::<Wrapper>::empty()))
        }),
{
    let t = s.take(k);
    let sv = json_run(t).unwrap();
    let stack = sv.stack;
    let w = expected_wrappers(st0);
    lemma_run_ok(t);
    lemma_trailing_space(t);
    lemma_trim_end_len(t);
    let u = trim_end_len(t) as int;
    let z = t.take(u);
    assert(z =~= s.take(u));
    let su = json_run(z).unwrap();
    assert(su.mode == sv.mode && su.stack == sv.stack);
    if stack.len() > 0 {
        assert(local_wrappers(stack, st0.mode) == frame_open(stack.last()));
    }
    if u == 0 {
        assert(z =~= Seq::<char>::empty());
        assert(stack.len() == 0);
        assert(w =~= Seq::<Wrapper>::empty());
        assert forall|i: int| 0 <= i < t.len() implies white_space(#[trigger] t[i]) by {
            assert(is_json_white_space(t[i]));
        }
    } else {
        let c = z.last();
        let zp = z.drop_last();
        assert(z =~= zp.push(c));
        lemma_step_ok_back(zp, c);
        lemma_run_ok(zp);
        lemma_step_facts(json_run(zp).unwrap(), c);
        assert(s[u - 1] == c);
        assert(!white_space(c));
        assert(!is_json_white_space(c));
        lemma_value_wrappers(stack);
        if su.mode is Value {
            assert(parents(stack) == parents(stack.drop_last()) + frame_parent_of(stack));
            if stack.last() is Object {
                assert(w.push(Wrapper::ObjectValue) =~= parents(stack));
            } else {
                assert(zp =~= s.take(u - 1));
                assert(c == ',');
            }
        } else {
            assert(c == '[');
            assert(parents(stack) == parents(stack.drop_last()) + frame_parent_of(stack));
        }
    }
}

/// The cut point and stack `res` can be closed to a JSON text (or leave only
/// white space, which becomes `null`), and a text that ends after a whole
/// value `st0` is left as it is.
pub open spec fn repair_ok(s: Seq<char>, end0: int, st0: JsonState, res: (int, Seq<Wrapper>)) -> bool {
    let (e, w2) = res;
    &&& 0 <= e <= s.len()
    &&& json_run(s.take(e)) is Some
    &&& ((closable(json_run(s.take(e)).unwrap()) && state_ok(json_run(s.take(e)).unwrap()) && w2
        == expected_wrappers(json_run(s.take(e)).unwrap())) || (all_white_space(s.take(e)) && w2
        == Seq::<Wrapper>::empty()))
    &&& !(st0.mode is Literal) && !(st0.mode matches Mode::Number(q) && !num_accepting(q)) ==> e
        == end0 && w2 == expected_wrappers(st0)
}

/// The repair of a trailing number that the automaton is still reading.
proof fn lemma_repair_number(s: Seq<char>, end0: int, k: int, p: int)
    requires
        0 <= k < p <= end0 <= s.len(),
        s.len() <= usize::MAX,
        json_run(s.take(end0)) is Some,
        json_run(s.take(p)) is Some,
        same_after_space(json_run(s.take(p)).unwrap(), json_run(s.take(end0)).unwrap()),
        json_run(s.take(p)).unwrap().mode is Number,
        trim_end_len(s.take(end0)) == p,
        token_start(s.take(end0), p) == k,
        json_run(s.take(k)) is Some,
        json_run(s.take(k)).unwrap().mode is Value || json_run(s.take(k)).unwrap().mode is ArrayStart,
        json_run(s.take(k)).unwrap().stack == json_run(s.take(p)).unwrap().stack,
        bare_text_ok(json_run(s.take(p)).unwrap(), s.subrange(k, p)),
    ensures
        repair_ok(
            s,
            end0,
            json_run(s.take(end0)).unwrap(),
            repair(
                s,
                end0,
                false,
                None,
                None,
                expected_wrappers(json_run(s.take(end0)).unwrap()),
            ),
        ),
{
    let t0 = s.take(end0);
    let st0 = json_run(t0).unwrap();
    let sp = json_run(s.take(p)).unwrap();
    let stack = st0.stack;
    let w = expected_wrappers(st0);
    lemma_run_ok(t0);
    let tok = t0.subrange(k, p);
    assert(tok =~= s.subrange(k, p));
    let q = sp.mode->Number_0;
    lemma_num_run_chars(tok);
    assert(!is_truncated_literal(tok)) by {
        if tok.len() < literal_word(0).len() {
            assert(literal_word(0).take(tok.len() as int)[0] == 't');
        }
        if tok.len() < literal_word(1).len() {
            assert(literal_word(1).take(tok.len() as int)[0] == 'f');
        }
        if tok.len() < literal_word(2).len() {
            assert(literal_word(2).take(tok.len() as int)[0] == 'n');
        }
    }
    if !num_accepting(q) {
        assert(st0.mode == sp.mode);
        let n = tok.len() as int;
        let l = longest_number_prefix(tok, n);
        crate::fixer::lemma_longest_number_prefix_bound(tok, n);
        if l > 0 {
            let e = k + l;
            assert(s.subrange(k, k + l) =~= tok.take(l));
            lemma_number_states(s, k, l);
            lemma_num_run_chars(tok.take(l));
            assert(s[e - 1] == tok.take(l).last());
            assert(!white_space(s[e - 1]));
            assert(trim_end_len(s.take(e)) == e);
            let ste = json_run(s.take(e)).unwrap();
            if stack.len() > 0 {
                assert(local_wrappers(stack, st0.mode) == local_wrappers(ste.stack, ste.mode));
            }
        } else {
            lemma_repair_cut(s, k, st0);
        }
    } else {
        lemma_run_ok(t0);
    }
}

/// The repair of the trailing token of `s.take(end0)`, outside strings.
pub proof fn lemma_repair(
    s: Seq<char>,
    end0: int,
    pending: Option<usize>,
    unicode: Option<(usize, usize)>,
)
    requires
        0 <= end0 <= s.len(),
        s.len() <= usize::MAX,
        json_run(s.take(end0)) is Some,
        string_state(json_run(s.take(end0)).unwrap().mode) is None,
        trim_end_len(s.take(end0)) == 0 || s[trim_end_len(s.take(end0)) - 1] != ',',
    ensures
        repair_ok(
            s,
            end0,
            json_run(s.take(end0)).unwrap(),
            repair(
                s,
                end0,
                false,
                pending,
                unicode,
                expected_wrappers(json_run(s.take(end0)).unwrap()),
            ),
        ),
{
    let t0 = s.take(end0);
    let st0 = json_run(t0).unwrap();
    let w = expected_wrappers(st0);
    let stack = st0.stack;
    lemma_run_ok(t0);
    lemma_trailing_space(t0);
    lemma_trim_end_len(t0);
    let p = trim_end_len(t0) as int;
    let y = t0.take(p);
    assert(y =~= s.take(p));
    let sp = json_run(y).unwrap();
    lemma_run_ok(y);
    assert(repair(s, end0, false, pending, unicode, w) == repair(s, end0, false, None, None, w));
    if p == 0 {
        assert(y =~= Seq::<char>::empty());
        assert(st0.stack.len() == 0 && st0.mode is Value);
        assert(w =~= Seq::<Wrapper>::empty());
        assert forall|i: int| 0 <= i < t0.len() implies white_space(#[trigger] t0[i]) by {
            assert(is_json_white_space(t0[i]));
        }
        return;
    }
    let c = y.last();
    assert(c == t0[p - 1] && c == s[p - 1]);
    let yp = y.drop_last();
    assert(y =~= yp.push(c));
    lemma_step_ok_back(yp, c);
    lemma_run_ok(yp);
    lemma_step_facts(json_run(yp).unwrap(), c);
    lemma_ascii_bareword(c);
    if is_bareword_char(c) {
        let k = lemma_bare_token(y);
        assert forall|i: int| k <= i < p implies is_bareword_char(#[trigger] t0[i]) by {
            assert(t0[i] == y[i]);
        }
        if k > 0 {
            assert(t0[k - 1] == y[k - 1]);
        }
        lemma_token_start(t0, k, p);
        assert(y.skip(k) =~= s.subrange(k, p));
        assert(s.take(k) =~= y.take(k));
        if sp.mode is Number {
            lemma_repair_number(s, end0, k, p);
        } else {
            lemma_repair_word(s, end0, k, p);
        }
    } else {
        assert(token_start(t0, p) == p);
    }
}

/// The repair of a trailing literal, cut off or whole.
proof fn lemma_repair_word(s: Seq<char>, end0: int, k: int, p: int)
    requires
        0 <= k < p <= end0 <= s.len(),
        s.len() <= usize::MAX,
        json_run(s.take(end0)) is Some,
        json_run(s.take(p)) is Some,
        same_after_space(json_run(s.take(p)).unwrap(), json_run(s.take(end0)).unwrap()),
        !(json_run(s.take(p)).unwrap().mode is Number),
        trim_end_len(s.take(end0)) == p,
        token_start(s.take(end0), p) == k,
        json_run(s.take(k)) is Some,
        json_run(s.take(k)).unwrap().mode is Value || json_run(s.take(k)).unwrap().mode is ArrayStart,
        json_run(s.take(k)).unwrap().stack == json_run(s.take(p)).unwrap().stack,
        bare_text_ok(json_run(s.take(p)).unwrap(), s.subrange(k, p)),
    ensures
        repair_ok(
            s,
            end0,
            json_run(s.take(end0)).unwrap(),
            repair(
                s,
                end0,
                false,
                None,
                None,
                expected_wrappers(json_run(s.take(end0)).unwrap()),
            ),
        ),
{
    let t0 = s.take(end0);
    let st0 = json_run(t0).unwrap();
    let sp = json_run(s.take(p)).unwrap();
    lemma_run_ok(t0);
    let tok = t0.subrange(k, p);
    assert(tok =~= s.subrange(k, p));
    assert(literal_word(0) == literal_text(0));
    assert(literal_word(1) == literal_text(1));
    assert(literal_word(2) == literal_text(2));
    match sp.mode {
        Mode::Literal(kk, m) => {
            assert(st0.mode == sp.mode);
            assert(is_proper_prefix(tok, literal_word(kk as int)));
            lemma_repair_cut(s, k, st0);
        },
        Mode::AfterValue => {
            assert(!is_numberish(tok)) by {
                assert(!(is_digit(tok[0]) || tok[0] == '.' || tok[0] == '+' || tok[0] == '-'
                    || tok[0] == 'e' || tok[0] == 'E'));
            }
            assert(!is_truncated_literal(tok));
        },
        _ => {
            assert(false);
        },
    }
}

/// The `frame_parent` of the innermost container.
spec fn frame_parent_of(stack: Seq<Frame>) -> Seq<Wrapper> {
    crate::scan_proof::frame_parent(stack.last())
}

} // verus!
