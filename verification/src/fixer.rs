//! The string-based fixer: scans a cut-off JSON text, keeps track of the
//! structures it is inside of, trims an incomplete trailing token and closes
//! what is still open.
use vstd::prelude::*;

use crate::chars::{
    all_white_space, bareword_char, hex_digit, is_bareword_char, is_digit, is_hex_digit,
    is_white_space, lemma_trim_end_len, string_from_chars, to_chars, trim_end_len, trimmed_len,
    white_space, digit,
};
use crate::number::{is_json_number, is_valid_json_number};
use crate::grammar::{is_json_prefix, is_json_text};
use crate::laws::{lemma_fix_json_completes, lemma_fix_json_keeps_whole_text};

verus! {

/// A structure that the scanner is inside of.
#[derive(Clone, Copy, PartialEq, Eq, Structural, Debug)]
pub enum Wrapper {
    /// An object, opened by `{`.
    Brace,
    /// An array, opened by `[`.
    SquareBracket,
    /// A string, opened by `"`.
    Quote,
    /// An object key: from its opening quote up to the `:`.
    ObjectKey,
    /// An object value: from the `:` up to the start of the value.
    ObjectValue,
}

/// What the scanner knows after a prefix of the input.
pub struct ScanState {
    /// The open structures, innermost last.
    pub wrappers: Seq<Wrapper>,
    /// Inside a string: the index of a backslash whose escaped character has
    /// not come yet.
    pub pending_escape: Option<usize>,
    /// Inside a string: the index of the backslash of a `\u` escape and how
    /// many hex digits of it have been seen.
    pub unicode_escape: Option<(usize, usize)>,
}

/// The state before any input.
pub open spec fn scan_init() -> ScanState {
    ScanState { wrappers: seq![], pending_escape: None, unicode_escape: None }
}

/// `w` without its last element, if it has one.
pub open spec fn pop(w: Seq<Wrapper>) -> Seq<Wrapper> {
    if w.len() > 0 {
        w.drop_last()
    } else {
        w
    }
}

/// Whether the innermost structure of `w` is `k`.
pub open spec fn top_is(w: Seq<Wrapper>, k: Wrapper) -> bool {
    w.len() > 0 && w.last() == k
}

/// `w` without a trailing `ObjectValue`.
pub open spec fn pop_value(w: Seq<Wrapper>) -> Seq<Wrapper> {
    if top_is(w, Wrapper::ObjectValue) {
        w.drop_last()
    } else {
        w
    }
}

/// How the structure stack changes on character `c` outside a string.
pub open spec fn structure_step(w: Seq<Wrapper>, c: char) -> Seq<Wrapper> {
    if c == '{' {
        w.push(Wrapper::Brace)
    } else if c == '}' || c == ']' {
        pop_value(pop(w))
    } else if c == '[' {
        w.push(Wrapper::SquareBracket)
    } else if c == '"' {
        if top_is(w, Wrapper::Brace) {
            w.push(Wrapper::ObjectKey).push(Wrapper::Quote)
        } else {
            pop_value(w).push(Wrapper::Quote)
        }
    } else if c == ':' {
        pop(w).push(Wrapper::ObjectValue)
    } else if white_space(c) {
        w
    } else {
        pop_value(w)
    }
}

/// How the scanner's state changes on character `c` at index `i`.
pub open spec fn scan_step(st: ScanState, i: usize, c: char) -> ScanState {
    if top_is(st.wrappers, Wrapper::Quote) {
        match st.pending_escape {
            Some(esc) => ScanState {
                pending_escape: None,
                unicode_escape: if c == 'u' {
                    Some((esc, 0usize))
                } else {
                    st.unicode_escape
                },
                ..st
            },
            None => match st.unicode_escape {
                Some((b, h)) => if h < 4 && is_hex_digit(c) {
                    ScanState { unicode_escape: Some((b, (h + 1) as usize)), ..st }
                } else if c == '"' {
                    ScanState { wrappers: pop(st.wrappers), unicode_escape: None, ..st }
                } else if c == '\\' {
                    ScanState { pending_escape: Some(i), unicode_escape: None, ..st }
                } else {
                    ScanState { unicode_escape: None, ..st }
                },
                None => if c == '"' {
                    ScanState { wrappers: pop(st.wrappers), ..st }
                } else if c == '\\' {
                    ScanState { pending_escape: Some(i), ..st }
                } else {
                    st
                },
            },
        }
    } else {
        ScanState { wrappers: structure_step(st.wrappers, c), ..st }
    }
}

/// The scanner's state after all of `s`.
pub open spec fn scan(s: Seq<char>) -> ScanState
    decreases s.len(),
{
    if s.len() == 0 {
        scan_init()
    } else {
        scan_step(scan(s.drop_last()), (s.len() - 1) as usize, s.last())
    }
}

/// The index at which the maximal run of bare-token characters that ends at
/// `p` begins (it is `p` when `s[p - 1]` is no such character).
pub open spec fn token_start(s: Seq<char>, p: int) -> int
    decreases p,
{
    if p <= 0 {
        p
    } else if is_bareword_char(s[p - 1]) {
        token_start(s, p - 1)
    } else {
        p
    }
}

/// Whether every character of `s` can occur in a number.
pub open spec fn is_numberish(s: Seq<char>) -> bool {
    forall|i: int|
        0 <= i < s.len() ==> #[trigger] is_digit(s[i]) || s[i] == '.' || s[i] == '+' || s[i]
            == '-' || s[i] == 'e' || s[i] == 'E'
}

/// `true`, `false` and `null`.
pub open spec fn literal_word(k: int) -> Seq<char> {
    if k == 0 {
        seq!['t', 'r', 'u', 'e']
    } else if k == 1 {
        seq!['f', 'a', 'l', 's', 'e']
    } else {
        seq!['n', 'u', 'l', 'l']
    }
}

/// `s` is a prefix of `w` other than `w` itself.
pub open spec fn is_proper_prefix(s: Seq<char>, w: Seq<char>) -> bool {
    s.len() < w.len() && w.take(s.len() as int) == s
}

/// `s` is a cut-off `true`, `false` or `null`.
pub open spec fn is_truncated_literal(s: Seq<char>) -> bool {
    is_proper_prefix(s, literal_word(0)) || is_proper_prefix(s, literal_word(1))
        || is_proper_prefix(s, literal_word(2))
}

/// The largest `k` with `0 < k < n` such that `tok.take(k)` is a JSON number,
/// or 0 when there is none.
pub open spec fn longest_number_prefix(tok: Seq<char>, n: int) -> int
    decreases n,
{
    if n <= 1 {
        0
    } else if is_json_number(tok.take(n - 1)) {
        n - 1
    } else {
        longest_number_prefix(tok, n - 1)
    }
}

/// The cut point and structure stack once an incomplete token at the end of
/// `s.take(end_index)` is repaired.
pub open spec fn repair(
    s: Seq<char>,
    end_index: int,
    ends_inside_string: bool,
    pending_escape: Option<usize>,
    unicode_escape: Option<(usize, usize)>,
    w: Seq<Wrapper>,
) -> (int, Seq<Wrapper>) {
    if ends_inside_string {
        match pending_escape {
            Some(esc) => (if esc < end_index {
                esc as int
            } else {
                end_index
            }, w),
            None => match unicode_escape {
                Some((b, h)) => (if h < 4 && b < end_index {
                    b as int
                } else {
                    end_index
                }, w),
                None => (end_index, w),
            },
        }
    } else {
        let t = s.take(end_index);
        let p = trim_end_len(t) as int;
        let start = token_start(t, p);
        let tok = t.subrange(start, p);
        let literal = is_truncated_literal(tok);
        if start == p || !(literal || (is_numberish(tok) && !is_json_number(tok))) {
            (end_index, w)
        } else {
            let e = if literal {
                start
            } else {
                start + longest_number_prefix(tok, tok.len() as int)
            };
            let u = trim_end_len(s.take(e)) as int;
            if u > 0 && s[u - 1] == ':' {
                (e, w.push(Wrapper::ObjectValue))
            } else if u > 0 && s[u - 1] == ',' {
                (u - 1, w)
            } else {
                (e, w)
            }
        }
    }
}

/// `acc` followed by what closes the structures in `w`, innermost first.
pub open spec fn close(w: Seq<Wrapper>, acc: Seq<char>) -> Seq<char>
    decreases w.len(),
{
    if w.len() == 0 {
        acc
    } else {
        let r = w.drop_last();
        match w.last() {
            Wrapper::Brace => close(pop_value(r), acc.push('}')),
            Wrapper::SquareBracket => close(pop_value(r), acc.push(']')),
            Wrapper::Quote => close(pop_value(r), acc.push('"')),
            Wrapper::ObjectKey => close(r, acc + seq![':', ' ', 'n', 'u', 'l', 'l']),
            Wrapper::ObjectValue => close(
                r,
                (if acc.len() > 0 && white_space(acc.last()) {
                    acc
                } else {
                    acc.push(' ')
                }) + seq!['n', 'u', 'l', 'l'],
            ),
        }
    }
}

/// What `fix_json` returns for the characters `s`.
pub open spec fn fixed_json(s: Seq<char>) -> Seq<char> {
    let st = scan(s);
    let inside = top_is(st.wrappers, Wrapper::Quote);
    let t = trim_end_len(s);
    let end0 = if !inside && t > 0 && s[t - 1] == ',' {
        t - 1
    } else {
        s.len() as int
    };
    let (e, w) = repair(s, end0, inside, st.pending_escape, st.unicode_escape, st.wrappers);
    let out = close(w, s.take(e));
    if all_white_space(out) {
        seq!['n', 'u', 'l', 'l']
    } else {
        out
    }
}

/// The executable scanner state.
struct Scanner {
    wrappers: Vec<Wrapper>,
    pending_escape: Option<usize>,
    unicode_escape: Option<(usize, usize)>,
}

impl Scanner {
    spec fn view(&self) -> ScanState {
        ScanState {
            wrappers: self.wrappers@,
            pending_escape: self.pending_escape,
            unicode_escape: self.unicode_escape,
        }
    }

    fn top_is(&self, k: Wrapper) -> (r: bool)
        ensures
            r == top_is(self.wrappers@, k),
    {
        self.wrappers.len() > 0 && self.wrappers[self.wrappers.len() - 1] == k
    }

    fn pop_value(&mut self)
        ensures
            final(self).wrappers@ == pop_value(old(self).wrappers@),
            final(self).pending_escape == old(self).pending_escape,
            final(self).unicode_escape == old(self).unicode_escape,
    {
        if self.top_is(Wrapper::ObjectValue) {
            self.wrappers.pop();
        }
    }

    fn pop(&mut self)
        ensures
            final(self).wrappers@ == pop(old(self).wrappers@),
            final(self).pending_escape == old(self).pending_escape,
            final(self).unicode_escape == old(self).unicode_escape,
    {
        self.wrappers.pop();
    }

    /// Processes character `c` at index `idx`.
    fn step(&mut self, idx: usize, c: char)
        ensures
            final(self).view() == scan_step(old(self).view(), idx, c),
    {
        if self.top_is(Wrapper::Quote) {
            if let Some(esc_idx) = self.pending_escape {
                // This char completes a `\c` escape sequence.
                self.pending_escape = None;
                if c == 'u' {
                    self.unicode_escape = Some((esc_idx, 0));
                }
            } else if let Some((bs_idx, hex_count)) = self.unicode_escape {
                if hex_count < 4 && hex_digit(c) {
                    self.unicode_escape = Some((bs_idx, hex_count + 1));
                } else {
                    self.unicode_escape = None;
                    if c == '"' {
                        self.pop();
                    } else if c == '\\' {
                        self.pending_escape = Some(idx);
                    }
                }
            } else if c == '"' {
                self.pop();
            } else if c == '\\' {
                self.pending_escape = Some(idx);
            }
        } else if c == '{' {
            self.wrappers.push(Wrapper::Brace);
        } else if c == '}' || c == ']' {
            // we assume it's correct JSON
            self.pop();
            self.pop_value();
        } else if c == '[' {
            self.wrappers.push(Wrapper::SquareBracket);
        } else if c == '"' {
            if self.top_is(Wrapper::Brace) {
                self.wrappers.push(Wrapper::ObjectKey);
            } else {
                self.pop_value();
            }
            self.wrappers.push(Wrapper::Quote);
        } else if c == ':' {
            // pop ObjectKey
            self.pop();
            self.wrappers.push(Wrapper::ObjectValue);
        } else if is_white_space(c) {
        } else {
            // a comma or a non white space character
            self.pop_value();
        }
    }
}

/// Computes `token_start(s.take(n), p)`.
fn find_token_start(s: &[char], p: usize) -> (r: usize)
    requires
        p <= s@.len(),
    ensures
        r == token_start(s@, p as int),
        r <= p,
{
    let mut k = p;
    while k > 0 && bareword_char(s[k - 1])
        invariant
            k <= p <= s@.len(),
            token_start(s@, p as int) == token_start(s@, k as int),
        decreases k,
    {
        k = k - 1;
    }
    k
}

/// `token_start` only looks at the characters before `p`.
pub(crate) proof fn lemma_token_start_take(s: Seq<char>, n: int, p: int)
    requires
        0 <= p <= n <= s.len(),
    ensures
        token_start(s.take(n), p) == token_start(s, p),
        0 <= token_start(s, p) <= p,
    decreases p,
{
    if p > 0 {
        assert(s.take(n)[p - 1] == s[p - 1]);
        lemma_token_start_take(s, n, p - 1);
    }
}

/// Executable test of `is_numberish`.
fn numberish(s: &[char]) -> (r: bool)
    ensures
        r == is_numberish(s@),
{
    let mut i: usize = 0;
    while i < s.len()
        invariant
            i <= s@.len(),
            forall|j: int|
                0 <= j < i ==> #[trigger] is_digit(s@[j]) || s@[j] == '.' || s@[j] == '+' || s@[j]
                    == '-' || s@[j] == 'e' || s@[j] == 'E',
        decreases s@.len() - i,
    {
        let c = s[i];
        if !(digit(c) || c == '.' || c == '+' || c == '-' || c == 'e' || c == 'E') {
            assert(!(is_digit(s@[i as int]) || s@[i as int] == '.' || s@[i as int] == '+'
                || s@[i as int] == '-' || s@[i as int] == 'e' || s@[i as int] == 'E'));
            return false;
        }
        i = i + 1;
    }
    true
}

/// Executable test of `is_proper_prefix`.
fn proper_prefix(s: &[char], w: &[char]) -> (r: bool)
    ensures
        r == is_proper_prefix(s@, w@),
{
    if s.len() >= w.len() {
        return false;
    }
    let mut i: usize = 0;
    while i < s.len()
        invariant
            i <= s@.len() < w@.len(),
            forall|j: int| 0 <= j < i ==> s@[j] == w@[j],
        decreases s@.len() - i,
    {
        if s[i] != w[i] {
            assert(w@.take(s@.len() as int)[i as int] != s@[i as int]);
            return false;
        }
        i = i + 1;
    }
    assert(w@.take(s@.len() as int) =~= s@);
    true
}

/// Executable test of `is_truncated_literal`.
fn truncated_literal(s: &[char]) -> (r: bool)
    ensures
        r == is_truncated_literal(s@),
{
    let t = vec!['t', 'r', 'u', 'e'];
    let f = vec!['f', 'a', 'l', 's', 'e'];
    let n = vec!['n', 'u', 'l', 'l'];
    assert(t@ =~= literal_word(0));
    assert(f@ =~= literal_word(1));
    assert(n@ =~= literal_word(2));
    proper_prefix(s, t.as_slice()) || proper_prefix(s, f.as_slice()) || proper_prefix(
        s,
        n.as_slice(),
    )
}

/// Adjusts `end_index` so any incomplete trailing token is repaired and the
/// output always parses as JSON:
/// - inside an unterminated string: drop a dangling lone `\` or partial `\uXXXX`
/// - otherwise: trim a truncated literal (`tru`) or number (`12.`, `1e-`)
///
/// May push an `ObjectValue` wrapper so the closing pass fills an emptied
/// value slot with `null`.
fn repair_incomplete_trailing_token(
    partial_json: &[char],
    end_index: usize,
    ends_inside_string: bool,
    escape_state: (Option<usize>, Option<(usize, usize)>),
    wrappers: &mut Vec<Wrapper>,
) -> (r: usize)
    requires
        end_index <= partial_json@.len(),
    ensures
        (r as int, final(wrappers)@) == repair(
            partial_json@,
            end_index as int,
            ends_inside_string,
            escape_state.0,
            escape_state.1,
            old(wrappers)@,
        ),
        r <= end_index,
{
    let (pending_escape, unicode_escape) = escape_state;
    if ends_inside_string {
        let mut end_index = end_index;
        if let Some(esc_idx) = pending_escape {
            if esc_idx < end_index {
                end_index = esc_idx;
            }
        } else if let Some((bs_idx, hex_count)) = unicode_escape {
            if hex_count < 4 && bs_idx < end_index {
                end_index = bs_idx;
            }
        }
        return end_index;
    }
    let ghost s = partial_json@;
    let ghost t = s.take(end_index as int);
    // Ends in (or right after) a bareword token: trim a truncated literal or
    // number back to something a JSON parser accepts.
    let p = trimmed_len(partial_json, end_index);
    proof {
        lemma_trim_end_len(t);
    }
    let start = find_token_start(partial_json, p);
    proof {
        lemma_token_start_take(s, end_index as int, p as int);
    }
    if start == p {
        return end_index;
    }
    let tok = &partial_json[start..p];
    assert(tok@ =~= t.subrange(start as int, p as int));
    let is_numberish = numberish(tok);
    let literal = truncated_literal(tok);
    if !(literal || (is_numberish && !is_valid_json_number(tok))) {
        return end_index;
    }
    let mut end_index = end_index;
    if literal {
        end_index = start;
    } else {
        // Numbers: trim back to the longest valid prefix
        // (e.g. `12.` -> `12`, `1e-` -> `1`).
        let mut best: usize = 0;
        let mut off: usize = 1;
        while off < tok.len()
            invariant
                1 <= off,
                off <= tok@.len() || tok@.len() == 0,
                best == longest_number_prefix(tok@, off as int),
            decreases tok@.len() - off,
        {
            if is_valid_json_number(&tok[0..off]) {
                assert(tok@.subrange(0, off as int) =~= tok@.take(off as int));
                best = off;
            } else {
                assert(tok@.subrange(0, off as int) =~= tok@.take(off as int));
            }
            off = off + 1;
        }
        assert(best == longest_number_prefix(tok@, tok@.len() as int));
        proof {
            lemma_longest_number_prefix_bound(tok@, tok@.len() as int);
        }
        end_index = start + best;
    }
    let u = trimmed_len(partial_json, end_index);
    proof {
        lemma_trim_end_len(s.take(end_index as int));
    }
    if u > 0 && partial_json[u - 1] == ':' {
        // The value slot is now empty; make the closing pass fill it.
        wrappers.push(Wrapper::ObjectValue);
    } else if u > 0 && partial_json[u - 1] == ',' {
        // A dangling separator would be invalid; drop it.
        end_index = u - 1;
    }
    end_index
}

/// `longest_number_prefix` stays below its bound.
pub(crate) proof fn lemma_longest_number_prefix_bound(tok: Seq<char>, n: int)
    ensures
        0 <= longest_number_prefix(tok, n),
        n > 0 ==> longest_number_prefix(tok, n) < n,
        longest_number_prefix(tok, n) > 0 ==> is_json_number(
            tok.take(longest_number_prefix(tok, n)),
        ),
        forall|k: int|
            longest_number_prefix(tok, n) < k < n ==> !is_json_number(#[trigger] tok.take(k)),
    decreases n,
{
    if n > 1 && !is_json_number(tok.take(n - 1)) {
        lemma_longest_number_prefix_bound(tok, n - 1);
    }
}

/// Takes a partial JSON string, kinda parses it and returns a complete JSON string.
/// This function keeps the JSON as a string, goes through it and analyzes the brackets, strings,
/// etc, to determine the missing stuff, and adds it.
/// It's assumed that the given JSON would **always** be a valid incomplete JSON.
pub fn fix_json(partial_json: &str) -> (r: String)
    ensures
        r@ == fixed_json(partial_json@),
        is_json_prefix(partial_json@) ==> is_json_text(r@),
        is_json_text(partial_json@) ==> r@ == partial_json@,
{
    let chars = to_chars(partial_json);
    let ghost s = chars@;
    let mut scanner = Scanner { wrappers: Vec::new(), pending_escape: None, unicode_escape: None };
    let mut idx: usize = 0;
    while idx < chars.len()
        invariant
            idx <= s.len(),
            s == chars@,
            scanner.view() == scan(s.take(idx as int)),
        decreases s.len() - idx,
    {
        assert(s.take(idx + 1).drop_last() =~= s.take(idx as int));
        scanner.step(idx, chars[idx]);
        idx = idx + 1;
    }
    assert(s.take(idx as int) =~= s);
    // A trailing comma is only structural if it sits outside any string.
    // If the input ends inside an unterminated string, the final comma is
    // string content and must be preserved.
    let ends_inside_string = scanner.top_is(Wrapper::Quote);
    let t = trimmed_len(chars.as_slice(), chars.len());
    assert(s.take(s.len() as int) =~= s);
    proof {
        lemma_trim_end_len(s);
    }
    let end_index = if !ends_inside_string && t > 0 && chars[t - 1] == ',' {
        t - 1
    } else {
        chars.len()
    };
    // Repair an incomplete trailing token so the output always parses as JSON.
    let end_index = repair_incomplete_trailing_token(
        chars.as_slice(),
        end_index,
        ends_inside_string,
        (scanner.pending_escape, scanner.unicode_escape),
        &mut scanner.wrappers,
    );
    let mut wrappers = scanner.wrappers;
    let mut final_json: Vec<char> = Vec::new();
    let mut i: usize = 0;
    while i < end_index
        invariant
            i <= end_index <= s.len(),
            s == chars@,
            final_json@ == s.take(i as int),
        decreases end_index - i,
    {
        final_json.push(chars[i]);
        assert(s.take(i + 1) =~= s.take(i as int).push(s[i as int]));
        i = i + 1;
    }
    let ghost goal = close(wrappers@, final_json@);
    while wrappers.len() > 0
        invariant
            close(wrappers@, final_json@) == goal,
        decreases wrappers@.len(),
    {
        let ghost w = wrappers@;
        let ghost old_json = final_json@;
        let wrapper = wrappers.pop().unwrap();
        match wrapper {
            Wrapper::Brace => {
                final_json.push('}');
                if wrappers.len() > 0 && wrappers[wrappers.len() - 1] == Wrapper::ObjectValue {
                    wrappers.pop();
                }
            },
            Wrapper::SquareBracket => {
                final_json.push(']');
                if wrappers.len() > 0 && wrappers[wrappers.len() - 1] == Wrapper::ObjectValue {
                    wrappers.pop();
                }
            },
            Wrapper::Quote => {
                final_json.push('"');
                if wrappers.len() > 0 && wrappers[wrappers.len() - 1] == Wrapper::ObjectValue {
                    wrappers.pop();
                }
            },
            Wrapper::ObjectKey => {
                final_json.push(':');
                final_json.push(' ');
                final_json.push('n');
                final_json.push('u');
                final_json.push('l');
                final_json.push('l');
                assert(final_json@ =~= old_json + seq![':', ' ', 'n', 'u', 'l', 'l']);
            },
            Wrapper::ObjectValue => {
                let n = final_json.len();
                if !(n > 0 && is_white_space(final_json[n - 1])) {
                    final_json.push(' ');
                }
                let ghost spaced = final_json@;
                final_json.push('n');
                final_json.push('u');
                final_json.push('l');
                final_json.push('l');
                assert(final_json@ =~= spaced + seq!['n', 'u', 'l', 'l']);
            },
        }
        assert(close(wrappers@, final_json@) == close(w, old_json));
    }
    assert(final_json@ == goal);
    let r = if all_space(final_json.as_slice()) {
        // An empty (or whitespace-only) input is still a prefix of valid
        // JSON; emit something parseable.
        let null = vec!['n', 'u', 'l', 'l'];
        string_from_chars(null.as_slice())
    } else {
        string_from_chars(final_json.as_slice())
    };
    proof {
        let _n = s.len();
        if is_json_prefix(s) {
            lemma_fix_json_completes(s);
        }
        if is_json_text(s) {
            lemma_fix_json_keeps_whole_text(s);
        }
    }
    r
}

/// Executable test of `all_white_space`.
fn all_space(s: &[char]) -> (r: bool)
    ensures
        r == all_white_space(s@),
{
    let mut i: usize = 0;
    while i < s.len()
        invariant
            i <= s@.len(),
            forall|j: int| 0 <= j < i ==> white_space(#[trigger] s@[j]),
        decreases s@.len() - i,
    {
        if !is_white_space(s[i]) {
            return false;
        }
        i = i + 1;
    }
    true
}

} // verus!
