//! JSON number syntax (RFC 8259, section 6) as a finite automaton, and the
//! executable check `is_valid_json_number`.
use vstd::prelude::*;

use crate::chars::{digit, is_digit};

verus! {

/// The states of the automaton that reads a JSON number from left to right.
#[derive(Clone, Copy, PartialEq, Eq, Structural, Debug)]
pub enum NumState {
    /// Nothing read yet.
    Start,
    /// A leading `-`.
    Minus,
    /// The integer part is a single `0`.
    Zero,
    /// The integer part is a digit `1`-`9` followed by digits.
    Int,
    /// A `.` that still needs a digit.
    Dot,
    /// At least one fraction digit.
    Frac,
    /// An `e` or `E` that still needs a sign or digit.
    Exp,
    /// The sign of the exponent.
    ExpSign,
    /// At least one exponent digit.
    ExpDigits,
}

/// One step of the number automaton; `None` when `c` cannot continue a number.
pub open spec fn num_step(q: NumState, c: char) -> Option<NumState> {
    match q {
        NumState::Start => if c == '-' {
            Some(NumState::Minus)
        } else if c == '0' {
            Some(NumState::Zero)
        } else if is_digit(c) {
            Some(NumState::Int)
        } else {
            None
        },
        NumState::Minus => if c == '0' {
            Some(NumState::Zero)
        } else if is_digit(c) {
            Some(NumState::Int)
        } else {
            None
        },
        NumState::Zero => if c == '.' {
            Some(NumState::Dot)
        } else if c == 'e' || c == 'E' {
            Some(NumState::Exp)
        } else {
            None
        },
        NumState::Int => if is_digit(c) {
            Some(NumState::Int)
        } else if c == '.' {
            Some(NumState::Dot)
        } else if c == 'e' || c == 'E' {
            Some(NumState::Exp)
        } else {
            None
        },
        NumState::Dot => if is_digit(c) {
            Some(NumState::Frac)
        } else {
            None
        },
        NumState::Frac => if is_digit(c) {
            Some(NumState::Frac)
        } else if c == 'e' || c == 'E' {
            Some(NumState::Exp)
        } else {
            None
        },
        NumState::Exp => if c == '+' || c == '-' {
            Some(NumState::ExpSign)
        } else if is_digit(c) {
            Some(NumState::ExpDigits)
        } else {
            None
        },
        NumState::ExpSign | NumState::ExpDigits => if is_digit(c) {
            Some(NumState::ExpDigits)
        } else {
            None
        },
    }
}

/// The states in which what was read is a whole number.
pub open spec fn num_accepting(q: NumState) -> bool {
    q is Zero || q is Int || q is Frac || q is ExpDigits
}

/// Runs the automaton from `q` over `s`; `None` once a character is refused.
pub open spec fn num_run_from(q: NumState, s: Seq<char>) -> Option<NumState>
    decreases s.len(),
{
    if s.len() == 0 {
        Some(q)
    } else {
        match num_run_from(q, s.drop_last()) {
            Some(p) => num_step(p, s.last()),
            None => None,
        }
    }
}

/// The state after reading all of `s` from the start.
pub open spec fn num_run(s: Seq<char>) -> Option<NumState> {
    num_run_from(NumState::Start, s)
}

/// `s` is a complete JSON number: `-? (0 | [1-9][0-9]*) (. [0-9]+)? ([eE] [+-]? [0-9]+)?`.
pub open spec fn is_json_number(s: Seq<char>) -> bool {
    match num_run(s) {
        Some(q) => num_accepting(q),
        None => false,
    }
}

/// Executable step of the number automaton.
pub fn next_num_state(q: NumState, c: char) -> (r: Option<NumState>)
    ensures
        r == num_step(q, c),
{
    match q {
        NumState::Start => if c == '-' {
            Some(NumState::Minus)
        } else if c == '0' {
            Some(NumState::Zero)
        } else if digit(c) {
            Some(NumState::Int)
        } else {
            None
        },
        NumState::Minus => if c == '0' {
            Some(NumState::Zero)
        } else if digit(c) {
            Some(NumState::Int)
        } else {
            None
        },
        NumState::Zero => if c == '.' {
            Some(NumState::Dot)
        } else if c == 'e' || c == 'E' {
            Some(NumState::Exp)
        } else {
            None
        },
        NumState::Int => if digit(c) {
            Some(NumState::Int)
        } else if c == '.' {
            Some(NumState::Dot)
        } else if c == 'e' || c == 'E' {
            Some(NumState::Exp)
        } else {
            None
        },
        NumState::Dot => if digit(c) {
            Some(NumState::Frac)
        } else {
            None
        },
        NumState::Frac => if digit(c) {
            Some(NumState::Frac)
        } else if c == 'e' || c == 'E' {
            Some(NumState::Exp)
        } else {
            None
        },
        NumState::Exp => if c == '+' || c == '-' {
            Some(NumState::ExpSign)
        } else if digit(c) {
            Some(NumState::ExpDigits)
        } else {
            None
        },
        NumState::ExpSign | NumState::ExpDigits => if digit(c) {
            Some(NumState::ExpDigits)
        } else {
            None
        },
    }
}

/// Checks whether `s` is a complete JSON number (stricter than a float parser,
/// which accepts things like `12.`).
pub fn is_valid_json_number(s: &[char]) -> (r: bool)
    ensures
        r == is_json_number(s@),
{
    let mut q = NumState::Start;
    let mut i: usize = 0;
    while i < s.len()
        invariant
            i <= s@.len(),
            num_run(s@.take(i as int)) == Some(q),
        decreases s@.len() - i,
    {
        assert(s@.take(i + 1).drop_last() =~= s@.take(i as int));
        match next_num_state(q, s[i]) {
            Some(p) => {
                q = p;
            },
            None => {
                proof {
                    lemma_num_run_dead(s@, i + 1);
                }
                return false;
            },
        }
        i = i + 1;
    }
    assert(s@.take(i as int) =~= s@);
    num_state_accepting(q)
}

/// Executable test of `num_accepting`.
pub fn num_state_accepting(q: NumState) -> (r: bool)
    ensures
        r == num_accepting(q),
{
    match q {
        NumState::Zero | NumState::Int | NumState::Frac | NumState::ExpDigits => true,
        _ => false,
    }
}

/// Once the automaton refuses a prefix, it refuses every longer prefix.
pub proof fn lemma_num_run_dead(s: Seq<char>, k: int)
    requires
        0 <= k <= s.len(),
        num_run(s.take(k)) is None,
    ensures
        num_run(s) is None,
    decreases s.len() - k,
{
    if k < s.len() {
        assert(s.take(k + 1).drop_last() =~= s.take(k));
        lemma_num_run_dead(s, k + 1);
    } else {
        assert(s.take(k) =~= s);
    }
}

} // verus!
