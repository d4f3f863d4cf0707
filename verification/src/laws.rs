//! What the library promises as a whole, proved.
use vstd::prelude::*;

use crate::chars::{all_white_space, is_bareword_char, lemma_trim_end_len, trim_end_len, white_space};
use crate::number::{is_json_number};
use crate::offsets::{lemma_byte_pos_strict, lemma_char_index};
use crate::parser::{parsed_json, unit_of};
use vstd::utf8::encode_utf8;
use crate::tokenizer::{
    bareword_end, covered, lemma_token_run_gaps, lemma_token_run_ranges, next_token,
    skip_white_space, token, token_run, JsonTokenKind,
};
use crate::roundtrip_proof::{lemma_read_value, value_ok};
use crate::value::{value_text, JsonError, UnitView, ValueView};
use crate::repair_proof::lemma_num_run_chars;
use crate::close_proof::{closable, lemma_close, lemma_text_not_white_space};
use crate::fixer::{
    close, fixed_json, is_numberish, is_truncated_literal, longest_number_prefix, repair, scan,
    token_start, top_is, Wrapper,
};
use crate::grammar::{is_json_prefix, is_json_text, json_run, Frame, JsonState, Mode, StrState};
use crate::complete_proof::lemma_json_value_text;
use crate::prefix_parse_proof::{ends_outside_escape, lemma_value_at};
use crate::number::{num_accepting, num_run, num_step, NumState};
use crate::chars::is_digit;
use crate::grammar::{json_init, json_num_accepting};
use crate::repair_proof::{lemma_repair};
use crate::run_lemmas::{lemma_ascii_bareword, lemma_run_ok, lemma_run_push, lemma_step_facts, lemma_step_ok_back, lemma_trailing_space};
use crate::scan_proof::{expected_wrappers, lemma_json_chars, lemma_quote_on_top, lemma_scan_matches, parents, state_ok, string_plain, string_state};

verus! {

/// `null` is a JSON text.
pub proof fn lemma_null_is_json()
    ensures
        is_json_text(seq!['n', 'u', 'l', 'l']),
{
    let n = seq!['n', 'u', 'l', 'l'];
    let e = Seq::<char>::empty();
    assert(e.push('n') =~= seq!['n']);
    assert(seq!['n'].push('u') =~= seq!['n', 'u']);
    assert(seq!['n', 'u'].push('l') =~= seq!['n', 'u', 'l']);
    assert(seq!['n', 'u', 'l'].push('l') =~= n);
    lemma_run_push(e, 'n');
    lemma_run_push(seq!['n'], 'u');
    lemma_run_push(seq!['n', 'u'], 'l');
    lemma_run_push(seq!['n', 'u', 'l'], 'l');
}

/// The result of `fix_json` is a JSON text once the cut point and stack
/// close to one, or leave only white space.
proof fn lemma_finish(s: Seq<char>, e: int, w: Seq<Wrapper>)
    requires
        0 <= e <= s.len(),
        json_run(s.take(e)) is Some,
        (closable(json_run(s.take(e)).unwrap()) && state_ok(json_run(s.take(e)).unwrap()) && w
            == expected_wrappers(json_run(s.take(e)).unwrap())) || (all_white_space(s.take(e)) && w
            == Seq::<Wrapper>::empty()),
    ensures
        is_json_text(
            if all_white_space(close(w, s.take(e))) {
                seq!['n', 'u', 'l', 'l']
            } else {
                close(w, s.take(e))
            },
        ),
{
    lemma_null_is_json();
    if closable(json_run(s.take(e)).unwrap()) && state_ok(json_run(s.take(e)).unwrap()) && w
        == expected_wrappers(json_run(s.take(e)).unwrap()) {
        lemma_close(json_run(s.take(e)).unwrap(), s.take(e));
        lemma_text_not_white_space(close(w, s.take(e)));
    } else {
        assert(close(w, s.take(e)) == s.take(e));
    }
}

/// Where `fix_json` cuts a text that ends inside a string.
proof fn lemma_fix_in_string(s: Seq<char>)
    requires
        is_json_prefix(s),
        s.len() <= usize::MAX,
        string_state(json_run(s).unwrap().mode) is Some,
    ensures
        is_json_text(fixed_json(s)),
{
    let st = json_run(s).unwrap();
    let sc = scan(s);
    lemma_scan_matches(s);
    lemma_quote_on_top(st);
    let plain = string_plain(st);
    let e = string_state(st.mode).unwrap();
    let (end, w) = repair(
        s,
        s.len() as int,
        true,
        sc.pending_escape,
        sc.unicode_escape,
        sc.wrappers,
    );
    assert(expected_wrappers(plain) == expected_wrappers(st));
    assert(w == sc.wrappers);
    match e {
        StrState::Plain => {
            assert(end == s.len());
            assert(s.take(end) =~= s);
            assert(plain == st);
        },
        StrState::Escape => {},
        StrState::Unicode(k) => {},
    }
    assert(json_run(s.take(end)) == Some(plain));
    assert(closable(plain));
    lemma_finish(s, end, w);
}

/// The state before a trailing comma is past a value, with the same stack
/// for the scanner.
proof fn lemma_before_comma(s: Seq<char>, tr: int)
    requires
        is_json_prefix(s),
        string_state(json_run(s).unwrap().mode) is None,
        tr == trim_end_len(s),
        tr > 0,
        s[tr - 1] == ',',
    ensures
        json_run(s.take(tr - 1)) is Some,
        ({
            let sp0 = json_run(s.take(tr - 1)).unwrap();
            &&& sp0.mode is AfterValue || (sp0.mode matches Mode::Number(q) && num_accepting(q))
            &&& expected_wrappers(sp0) == expected_wrappers(json_run(s).unwrap())
            &&& trim_end_len(s.take(tr - 1)) == 0 || s[trim_end_len(s.take(tr - 1)) - 1] != ','
        }),
{
    let st = json_run(s).unwrap();
    lemma_run_ok(s);
    lemma_trailing_space(s);
    lemma_trim_end_len(s);
    let z = s.take(tr);
    let st_tr = json_run(z).unwrap();
    let zp = z.drop_last();
    assert(z =~= zp.push(','));
    assert(zp =~= s.take(tr - 1));
    lemma_step_ok_back(zp, ',');
    lemma_run_ok(zp);
    let sp0 = json_run(zp).unwrap();
    lemma_step_facts(sp0, ',');
    lemma_ascii_bareword(',');
    assert(st_tr.mode is Key || st_tr.mode is Value);
    assert(st.mode == st_tr.mode && st.stack == st_tr.stack);
    let stack = st.stack;
    assert(expected_wrappers(sp0) == expected_wrappers(st)) by {
        if st.mode is Value {
            assert(parents(stack) == parents(stack.drop_last()) + crate::scan_proof::frame_parent(
                stack.last(),
            ));
        }
    }
    lemma_trailing_space(zp);
    lemma_trim_end_len(zp);
    let q = trim_end_len(zp) as int;
    if q > 0 {
        let y = zp.take(q);
        let yp = y.drop_last();
        assert(y =~= yp.push(y.last()));
        lemma_step_ok_back(yp, y.last());
        lemma_run_ok(yp);
        lemma_step_facts(json_run(yp).unwrap(), y.last());
        lemma_ascii_bareword(y.last());
        assert(y.last() == s[q - 1]);
    }
}

/// Whatever prefix of a JSON text `fix_json` is given, it returns a whole
/// JSON text: the cut-off text is completed so that it always parses.
pub proof fn lemma_fix_json_completes(s: Seq<char>)
    requires
        is_json_prefix(s),
        s.len() <= usize::MAX,
    ensures
        is_json_text(fixed_json(s)),
{
    let st = json_run(s).unwrap();
    let sc = scan(s);
    lemma_scan_matches(s);
    lemma_run_ok(s);
    lemma_quote_on_top(st);
    if string_state(st.mode) is Some {
        lemma_fix_in_string(s);
        return;
    }
    assert(sc.wrappers == expected_wrappers(st));
    lemma_trim_end_len(s);
    let tr = trim_end_len(s) as int;
    if tr > 0 && s[tr - 1] == ',' {
        lemma_before_comma(s, tr);
        lemma_repair(s, tr - 1, sc.pending_escape, sc.unicode_escape);
        let (e, w) = repair(
            s,
            tr - 1,
            false,
            sc.pending_escape,
            sc.unicode_escape,
            sc.wrappers,
        );
        lemma_finish(s, e, w);
    } else {
        assert(s.take(s.len() as int) =~= s);
        lemma_repair(s, s.len() as int, sc.pending_escape, sc.unicode_escape);
        let (e, w) = repair(
            s,
            s.len() as int,
            false,
            sc.pending_escape,
            sc.unicode_escape,
            sc.wrappers,
        );
        lemma_finish(s, e, w);
    }
}

/// A whole JSON text is returned by `fix_json` as it is.
pub proof fn lemma_fix_json_keeps_whole_text(s: Seq<char>)
    requires
        is_json_text(s),
        s.len() <= usize::MAX,
    ensures
        fixed_json(s) == s,
{
    let st = json_run(s).unwrap();
    let sc = scan(s);
    lemma_scan_matches(s);
    lemma_run_ok(s);
    lemma_quote_on_top(st);
    assert(sc.wrappers =~= Seq::<Wrapper>::empty());
    lemma_trim_end_len(s);
    lemma_trailing_space(s);
    let tr = trim_end_len(s) as int;
    if tr > 0 && s[tr - 1] == ',' {
        let z = s.take(tr);
        let zp = z.drop_last();
        assert(z =~= zp.push(','));
        lemma_step_ok_back(zp, ',');
        lemma_run_ok(zp);
        lemma_step_facts(json_run(zp).unwrap(), ',');
        lemma_ascii_bareword(',');
        assert(false);
    }
    assert(s.take(s.len() as int) =~= s);
    lemma_repair(s, s.len() as int, sc.pending_escape, sc.unicode_escape);
    assert(close(sc.wrappers, s) == s);
    lemma_text_not_white_space(s);
}

/// Fixing a fixed text changes nothing more.
pub proof fn lemma_fix_json_idempotent(s: Seq<char>)
    requires
        is_json_prefix(s),
        s.len() <= usize::MAX,
        fixed_json(s).len() <= usize::MAX,
    ensures
        fixed_json(fixed_json(s)) == fixed_json(s),
{
    lemma_fix_json_completes(s);
    lemma_fix_json_keeps_whole_text(fixed_json(s));
}

/// The characters that `fix_json` appends to close what is open.
pub open spec fn is_closing_char(c: char) -> bool {
    c == '}' || c == ']' || c == '"' || c == ':' || c == ' ' || c == 'n' || c == 'u' || c == 'l'
}

/// `close` keeps what it is given and appends closing characters only.
proof fn lemma_close_appends(w: Seq<Wrapper>, acc: Seq<char>)
    ensures
        close(w, acc).len() >= acc.len(),
        close(w, acc).take(acc.len() as int) == acc,
        forall|i: int|
            acc.len() <= i < close(w, acc).len() ==> is_closing_char(#[trigger] close(w, acc)[i]),
    decreases w.len(),
{
    if w.len() > 0 {
        let r = w.drop_last();
        let next = match w.last() {
            Wrapper::Brace => acc.push('}'),
            Wrapper::SquareBracket => acc.push(']'),
            Wrapper::Quote => acc.push('"'),
            Wrapper::ObjectKey => acc + seq![':', ' ', 'n', 'u', 'l', 'l'],
            Wrapper::ObjectValue => (if acc.len() > 0 && white_space(acc.last()) {
                acc
            } else {
                acc.push(' ')
            }) + seq!['n', 'u', 'l', 'l'],
        };
        let rest = match w.last() {
            Wrapper::Brace | Wrapper::SquareBracket | Wrapper::Quote => crate::fixer::pop_value(r),
            _ => r,
        };
        assert(close(w, acc) == close(rest, next));
        lemma_close_appends(rest, next);
        assert(next.take(acc.len() as int) =~= acc);
        assert forall|i: int| acc.len() <= i < close(w, acc).len() implies is_closing_char(
            #[trigger] close(w, acc)[i],
        ) by {
            if i < next.len() {
                assert(close(w, acc)[i] == close(rest, next).take(next.len() as int)[i]);
            }
        }
        assert(close(w, acc).take(acc.len() as int) =~= close(rest, next).take(
            next.len() as int,
        ).take(acc.len() as int));
    } else {
        assert(acc.take(acc.len() as int) =~= acc);
    }
}

/// `fix_json` only cuts off an incomplete end of its input and appends
/// closing characters; or it returns `null` for a blank result. Its result is
/// never blank.
pub proof fn lemma_fix_json_appends(s: Seq<char>)
    ensures
        !all_white_space(fixed_json(s)),
        fixed_json(s) == seq!['n', 'u', 'l', 'l'] || exists|e: int|
            0 <= e <= s.len() && #[trigger] fixed_json(s).take(e) == s.take(e) && forall|i: int|
                e <= i < fixed_json(s).len() ==> is_closing_char(#[trigger] fixed_json(s)[i]),
{
    let st = scan(s);
    let inside = top_is(st.wrappers, Wrapper::Quote);
    let t = trim_end_len(s);
    let end0 = if !inside && t > 0 && s[t - 1] == ',' {
        t - 1
    } else {
        s.len() as int
    };
    lemma_trim_end_len(s);
    let (e, w) = repair(s, end0, inside, st.pending_escape, st.unicode_escape, st.wrappers);
    lemma_repair_bound(s, end0, inside, st.pending_escape, st.unicode_escape, st.wrappers);
    let out = close(w, s.take(e));
    lemma_close_appends(w, s.take(e));
    assert(!white_space('n'));
    if !all_white_space(out) {
        assert(out.take(e) == s.take(e));
    }
}

/// `repair` cuts no later than it is told.
proof fn lemma_repair_bound(
    s: Seq<char>,
    end0: int,
    inside: bool,
    pe: Option<usize>,
    ue: Option<(usize, usize)>,
    w: Seq<Wrapper>,
)
    requires
        0 <= end0 <= s.len(),
    ensures
        0 <= repair(s, end0, inside, pe, ue, w).0 <= end0,
{
    if !inside {
        let t = s.take(end0);
        lemma_trim_end_len(t);
        let p = trim_end_len(t) as int;
        crate::fixer::lemma_token_start_take(s, end0, p);
        let start = crate::fixer::token_start(t, p);
        let tok = t.subrange(start, p);
        crate::fixer::lemma_longest_number_prefix_bound(tok, tok.len() as int);
        let e = if crate::fixer::is_truncated_literal(tok) {
            start
        } else {
            start + crate::fixer::longest_number_prefix(tok, tok.len() as int)
        };
        if 0 <= e <= s.len() {
            lemma_trim_end_len(s.take(e));
        }
    }
}

/// A JSON number on its own is read as that number, and written back as it
/// was.
pub proof fn lemma_parse_number(n: Seq<char>)
    requires
        is_json_number(n),
        encode_utf8(n).len() <= usize::MAX,
    ensures
        parsed_json(n) == Ok::<ValueView, crate::value::JsonError>(ValueView::Unit(UnitView::Number(n))),
        value_text(ValueView::Unit(UnitView::Number(n))) == n,
{
    lemma_num_run_chars(n);
    assert(n.len() > 0);
    lemma_byte_pos_strict(n, 0, n.len() as int);
    lemma_char_index(n, 0);
    lemma_char_index(n, n.len() as int);
    assert forall|i: int| 1 <= i <= n.len() implies bareword_end(n, i) == n.len() by {
        lemma_bareword_to_end(n, i);
    }
    assert(!white_space(n[0]));
    assert(skip_white_space(n, 0) == 0);
    assert(next_token(n, 0) == (Some(token(n, JsonTokenKind::Number, 0, n.len() as int)), n.len() as int));
    assert(n.subrange(0, n.len() as int) =~= n);
    assert(n != seq!['t', 'r', 'u', 'e']);
    assert(n != seq!['f', 'a', 'l', 's', 'e']);
    assert(unit_of(n, token(n, JsonTokenKind::Number, 0, n.len() as int)) == UnitView::Number(n));
}

/// Every character of a number is a bare-token character, so a bare token
/// runs to the end of a number.
proof fn lemma_bareword_to_end(n: Seq<char>, i: int)
    requires
        crate::fixer::is_numberish(n),
        1 <= i <= n.len(),
    ensures
        bareword_end(n, i) == n.len(),
    decreases n.len() - i,
{
    if i < n.len() {
        lemma_ascii_bareword(n[i]);
        assert(is_bareword_char(n[i]));
        lemma_bareword_to_end(n, i + 1);
    }
}

/// What `to_string` writes, `fix_json_parse` reads back as the same value,
/// and so writing that value again gives the same text: for every value
/// whose text the tokenizer splits as it was written. Those are the values
/// made of scalars that read back as themselves (numbers that are JSON
/// numbers, strings with no quote that ends them early and no backslash
/// left pending at their end), arrays and objects, with no `Null` node. So
/// a JSON number anywhere in an array or object is read as one number
/// holding exactly its text.
pub proof fn lemma_parse_reads_back_text(v: ValueView)
    requires
        value_ok(v),
        encode_utf8(value_text(v)).len() <= usize::MAX,
    ensures
        parsed_json(value_text(v)) == Ok::<ValueView, JsonError>(v),
        value_text(parsed_json(value_text(v))->Ok_0) == value_text(v),
{
    let s = value_text(v);
    assert(s.subrange(0, s.len() as int) =~= s);
    lemma_read_value(s, 0, 0, v);
}

/// The tokens that the tokenizer gives from position `pos` until it gives
/// none lie in order in the text: each is made of a range of whole
/// characters, its span holds the byte offsets of that range, the ranges
/// follow one another without overlap, and only white space stands before,
/// between and after them. `JsonTokenizer::next` gives these tokens one by
/// one, call after call.
#[verifier::spinoff_prover]
#[verifier::rlimit(40)]
pub proof fn lemma_tokens_in_order(s: Seq<char>, pos: int)
    requires
        0 <= pos <= s.len(),
        encode_utf8(s).len() <= usize::MAX,
    ensures
        ({
            let r = token_run(s, pos);
            &&& forall|j: int|
                0 <= j < r.len() ==> pos <= (#[trigger] r[j]).1 < r[j].2 <= s.len() && r[j].0
                    == token(s, r[j].0.kind, r[j].1, r[j].2) && r[j].0.span.start < r[j].0.span.end
                    <= encode_utf8(s).len()
            &&& forall|j: int|
                0 <= j < r.len() - 1 ==> (#[trigger] r[j]).2 <= r[j + 1].1 && r[j].0.span.end
                    <= r[j + 1].0.span.start
            &&& forall|k: int| pos <= k < s.len() && !covered(r, k) ==> white_space(#[trigger] s[k])
        }),
{
    let r = token_run(s, pos);
    lemma_token_run_ranges(s, pos);
    lemma_token_run_gaps(s, pos);
    assert forall|j: int| 0 <= j < r.len() implies pos <= (#[trigger] r[j]).1 < r[j].2 <= s.len()
        && r[j].0 == token(s, r[j].0.kind, r[j].1, r[j].2) && r[j].0.span.start < r[j].0.span.end
        <= encode_utf8(s).len() by {
        lemma_byte_pos_strict(s, r[j].1, r[j].2);
        lemma_byte_pos_strict(s, r[j].2, s.len() as int);
    }
    assert forall|j: int| 0 <= j < r.len() - 1 implies (#[trigger] r[j]).2 <= r[j + 1].1
        && r[j].0.span.end <= r[j + 1].0.span.start by {
        lemma_byte_pos_strict(s, r[j].2, r[j + 1].1);
        lemma_byte_pos_strict(s, r[j + 1].1, s.len() as int);
    }
}

/// Whatever prefix of a JSON text `fix_json_parse` is given, unless it is
/// blank or cut inside an escape of a string or key, it reads a value, and
/// `to_string` writes that value as a whole JSON text.
pub proof fn lemma_fix_json_parse_completes(s: Seq<char>)
    requires
        is_json_prefix(s),
        ends_outside_escape(s),
        !all_white_space(s),
        encode_utf8(s).len() <= usize::MAX,
    ensures
        parsed_json(s) is Ok,
        is_json_text(value_text(parsed_json(s)->Ok_0)),
{
    assert(s.take(0) =~= Seq::<char>::empty());
    assert(json_run(Seq::<char>::empty()) == Some(
        JsonState { stack: Seq::<Frame>::empty(), mode: Mode::Value },
    ));
    lemma_value_at(s, 0, Seq::<Frame>::empty(), Mode::Value);
    crate::tokenizer::lemma_skip_white_space(s, 0);
    if skip_white_space(s, 0) >= s.len() {
        assert(all_white_space(s));
    }
    lemma_json_value_text(parsed_json(s)->Ok_0);
}

/// `token_start` stays between the start of the text and `p`.
proof fn lemma_token_start_bounds(t: Seq<char>, p: int)
    requires
        0 <= p <= t.len(),
    ensures
        0 <= token_start(t, p) <= p,
    decreases p,
{
    if p > 0 && is_bareword_char(t[p - 1]) {
        lemma_token_start_bounds(t, p - 1);
    }
}

/// When the text ends in an incomplete number, `fix_json` keeps the longest
/// beginning of that number that is a whole JSON number, and no more: the
/// cut falls within the token, what is kept of it is a JSON number, and
/// every longer beginning of the token is no JSON number. When no beginning
/// is a number, nothing of the token is kept.
pub proof fn lemma_number_cut_keeps_longest(s: Seq<char>, end_index: int, w: Seq<Wrapper>)
    requires
        0 <= end_index <= s.len(),
    ensures
        ({
            let t = s.take(end_index);
            let p = trim_end_len(t) as int;
            let start = token_start(t, p);
            let tok = t.subrange(start, p);
            let r = repair(s, end_index, false, None, None, w).0;
            (start < p && is_numberish(tok) && !is_json_number(tok) && !is_truncated_literal(tok))
                ==> (r - start < tok.len() && (r > start ==> is_json_number(tok.take(r - start)))
                && forall|k: int|
                0 < k && r - start < k < tok.len() ==> !is_json_number(#[trigger] tok.take(k)))
        }),
{
    let t = s.take(end_index);
    lemma_trim_end_len(t);
    let p = trim_end_len(t) as int;
    lemma_token_start_bounds(t, p);
    let start = token_start(t, p);
    let tok = t.subrange(start, p);
    let n = tok.len() as int;
    if start < p && is_numberish(tok) && !is_json_number(tok) && !is_truncated_literal(tok) {
        crate::fixer::lemma_longest_number_prefix_bound(tok, n);
        let l = longest_number_prefix(tok, n);
        let e = start + l;
        assert(tok.take(0) =~= Seq::<char>::empty());
        assert(num_run(Seq::<char>::empty()) == Some(NumState::Start));
        lemma_trim_end_len(s.take(e));
        if l > 0 {
            lemma_num_run_chars(tok.take(l));
            assert(s.take(e).last() == tok[l - 1]);
            assert(s.take(e).last() == tok.take(l).last());
            lemma_ascii_bareword(tok[l - 1]);
            assert(trim_end_len(s.take(e)) == e);
            assert(s[e - 1] == tok[l - 1]);
        }
        let r = repair(s, end_index, false, None, None, w).0;
        let u = trim_end_len(s.take(e)) as int;
        assert(e == start + longest_number_prefix(tok, tok.len() as int));
        assert(r == e || (u > 0 && s[u - 1] == ',' && r == u - 1));
        assert(r - start < n);
        assert(r > start ==> r == e);
        assert(r > start ==> is_json_number(tok.take(r - start)));
        assert(forall|k: int| 0 < k && r - start < k < n ==> !is_json_number(#[trigger] tok.take(k)));
    }
}

/// When the text ends inside an escape of a string or key, a lone backslash
/// or `\u` with fewer than four hex digits, `fix_json` drops that escape
/// and nothing before it: everything before its backslash is kept, and a
/// quote closes the string right there.
pub proof fn lemma_fix_json_drops_open_escape(s: Seq<char>, b: int)
    requires
        is_json_prefix(s),
        s.len() <= usize::MAX,
        ({
            let m = json_run(s).unwrap().mode;
            ||| string_state(m) == Some(StrState::Escape) && b == s.len() - 1
            ||| string_state(m) matches Some(StrState::Unicode(k)) && b == s.len() - 2 - k
        }),
    ensures
        0 <= b < s.len(),
        fixed_json(s).len() > b,
        fixed_json(s).take(b) == s.take(b),
        fixed_json(s)[b] == '"',
{
    let st = json_run(s).unwrap();
    let sc = scan(s);
    lemma_scan_matches(s);
    lemma_run_ok(s);
    lemma_quote_on_top(st);
    let w = sc.wrappers;
    assert(top_is(w, Wrapper::Quote));
    let (e, w2) = repair(s, s.len() as int, true, sc.pending_escape, sc.unicode_escape, w);
    assert(e == b && w2 == w);
    let acc = s.take(b);
    let next = acc.push('"');
    let rest = crate::fixer::pop_value(w.drop_last());
    assert(close(w, acc) == close(rest, next));
    lemma_close_appends(rest, next);
    let out = close(w, acc);
    assert(out.take(b + 1) == next);
    assert(out[b] == next[b]);
    assert(out.take(b) =~= acc) by {
        assert(out.take(b) =~= next.take(b));
    }
    assert(!all_white_space(out)) by {
        lemma_json_chars();
    }
}

/// The characters that can make up a number.
pub open spec fn number_char(c: char) -> bool {
    ('0' <= c && c <= '9') || c == '-' || c == '+' || c == '.' || c == 'e' || c == 'E'
}

/// A text of number characters that the grammar reads from its start is
/// still inside one number, in the state the number automaton reaches.
proof fn lemma_number_text_run(n: Seq<char>)
    requires
        n.len() > 0,
        forall|i: int| 0 <= i < n.len() ==> number_char(#[trigger] n[i]),
        json_run(n) is Some,
    ensures
        num_run(n) is Some,
        json_run(n) == Some(
            JsonState { stack: Seq::<Frame>::empty(), mode: Mode::Number(num_run(n).unwrap()) },
        ),
    decreases n.len(),
{
    let d = n.drop_last();
    let c = n.last();
    lemma_run_push(d, c);
    assert(d.push(c) =~= n);
    assert(number_char(c));
    if d.len() == 0 {
        assert(d =~= Seq::<char>::empty());
        assert(json_run(d) == Some(json_init()));
        assert(num_run(n) == num_step(NumState::Start, c)) by {
            assert(num_run(d) == Some(NumState::Start));
        }
    } else {
        assert forall|i: int| 0 <= i < d.len() implies number_char(#[trigger] d[i]) by {
            assert(d[i] == n[i]);
        }
        lemma_step_ok_back(d, c);
        lemma_number_text_run(d);
        assert(num_run(n) == num_step(num_run(d).unwrap(), c));
    }
}

/// A JSON number is exactly a JSON text made of number characters alone:
/// the numbers that `fix_json` and `fix_json_parse` accept are those of the
/// JSON grammar.
pub proof fn lemma_json_number_is_json_text(n: Seq<char>)
    ensures
        is_json_number(n) <==> (is_json_text(n) && forall|i: int|
            0 <= i < n.len() ==> number_char(#[trigger] n[i])),
{
    if is_json_number(n) {
        lemma_num_run_chars(n);
        assert(n.len() > 0) by {
            if n.len() == 0 {
                assert(n =~= Seq::<char>::empty());
            }
        }
        crate::complete_proof::lemma_number_run(Seq::<Frame>::empty(), n);
        assert(json_init() == JsonState { stack: Seq::<Frame>::empty(), mode: Mode::Value });
        assert forall|i: int| 0 <= i < n.len() implies number_char(#[trigger] n[i]) by {
            assert(is_digit(n[i]) || n[i] == '.' || n[i] == '+' || n[i] == '-' || n[i] == 'e'
                || n[i] == 'E');
        }
    }
    if is_json_text(n) && forall|i: int| 0 <= i < n.len() ==> number_char(#[trigger] n[i]) {
        if n.len() == 0 {
            assert(n =~= Seq::<char>::empty());
            assert(json_run(n) == Some(json_init()));
        } else {
            lemma_number_text_run(n);
        }
    }
}

/// `fix_json` keeps the whole of its input, and only appends to it, unless
/// the input is blank or ends in the middle of a literal, a number or an
/// escape, or (outside strings) with a dangling comma.
pub proof fn lemma_fix_json_keeps_input(s: Seq<char>)
    requires
        is_json_prefix(s),
        s.len() <= usize::MAX,
        !all_white_space(s),
        ({
            let m = json_run(s).unwrap().mode;
            &&& !(m is Literal)
            &&& !(m matches Mode::Number(q) && !json_num_accepting(q))
            &&& !(string_state(m) matches Some(e) && !(e is Plain))
            &&& string_state(m) is None ==> trim_end_len(s) == 0 || s[trim_end_len(s) - 1] != ','
        }),
    ensures
        fixed_json(s).len() >= s.len(),
        fixed_json(s).take(s.len() as int) == s,
{
    let st = json_run(s).unwrap();
    let sc = scan(s);
    lemma_scan_matches(s);
    lemma_run_ok(s);
    lemma_quote_on_top(st);
    assert(s.take(s.len() as int) =~= s);
    let inside = top_is(sc.wrappers, Wrapper::Quote);
    if !inside {
        lemma_repair(s, s.len() as int, sc.pending_escape, sc.unicode_escape);
    }
    let (e, w) = repair(s, s.len() as int, inside, sc.pending_escape, sc.unicode_escape, sc.wrappers);
    assert(e == s.len());
    lemma_close_appends(w, s);
    let out = close(w, s);
    assert(!all_white_space(out)) by {
        let i = choose|i: int| 0 <= i < s.len() && !white_space(#[trigger] s[i]);
        assert(out[i] == out.take(s.len() as int)[i]);
    }
}

/// A dangling comma at the end of the input, outside strings, is all that
/// `fix_json` drops: everything before it is kept, and only appended to.
pub proof fn lemma_fix_json_drops_dangling_comma(s: Seq<char>)
    requires
        is_json_prefix(s),
        s.len() <= usize::MAX,
        string_state(json_run(s).unwrap().mode) is None,
        trim_end_len(s) > 0,
        s[trim_end_len(s) - 1] == ',',
    ensures
        fixed_json(s).len() >= trim_end_len(s) - 1,
        fixed_json(s).take(trim_end_len(s) - 1) == s.take(trim_end_len(s) - 1),
{
    let st = json_run(s).unwrap();
    let sc = scan(s);
    lemma_scan_matches(s);
    lemma_run_ok(s);
    lemma_quote_on_top(st);
    let tr = trim_end_len(s) as int;
    lemma_trim_end_len(s);
    lemma_before_comma(s, tr);
    lemma_repair(s, tr - 1, sc.pending_escape, sc.unicode_escape);
    let (e, w) = repair(s, tr - 1, false, sc.pending_escape, sc.unicode_escape, sc.wrappers);
    assert(e == tr - 1);
    let acc = s.take(tr - 1);
    lemma_close_appends(w, acc);
    let out = close(w, acc);
    assert(!all_white_space(acc)) by {
        if all_white_space(acc) {
            crate::close_proof::lemma_white_space_run(acc);
        }
    }
    assert(!all_white_space(out)) by {
        let i = choose|i: int| 0 <= i < acc.len() && !white_space(#[trigger] acc[i]);
        assert(out[i] == out.take(acc.len() as int)[i]);
    }
}

} // verus!