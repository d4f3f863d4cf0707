//! The syntax of JSON texts (RFC 8259) as a pushdown automaton that reads a
//! text from left to right. A text is a prefix of some JSON text exactly when
//! the automaton does not get stuck on it, and it is a whole JSON text when
//! the automaton ends in an accepting state.
use vstd::prelude::*;

use crate::number::NumState;

verus! {

/// JSON white space: space, tab, line feed and carriage return.
pub open spec fn is_json_white_space(c: char) -> bool {
    c == ' ' || c == '\t' || c == '\n' || c == '\r'
}

/// A hexadecimal digit as RFC 8259 writes it in a `\u` escape: `0`-`9`,
/// `a`-`f` or `A`-`F`.
pub open spec fn json_hex_digit(c: char) -> bool {
    ('0' <= c && c <= '9') || ('a' <= c && c <= 'f') || ('A' <= c && c <= 'F')
}

/// A decimal digit, `0` to `9`.
pub open spec fn json_digit(c: char) -> bool {
    '0' <= c && c <= '9'
}

/// One step through a number as RFC 8259 writes it,
/// `-? (0 | [1-9][0-9]*) (. [0-9]+)? ([eE] [+-]? [0-9]+)?`; `None` when `c`
/// cannot continue it.
pub open spec fn json_num_step(q: NumState, c: char) -> Option<NumState> {
    match q {
        NumState::Start => if c == '-' {
            Some(NumState::Minus)
        } else if c == '0' {
            Some(NumState::Zero)
        } else if json_digit(c) {
            Some(NumState::Int)
        } else {
            None
        },
        NumState::Minus => if c == '0' {
            Some(NumState::Zero)
        } else if json_digit(c) {
            Some(NumState::Int)
        } else {
            None
        },
        NumState::Zero => if c == '.' {
            Some(NumState::Dot)
        } else if c == 'e' || c == 'E' {
            Some(NumState::Exp)
        } else {
            None
        },
        NumState::Int => if json_digit(c) {
            Some(NumState::Int)
        } else if c == '.' {
            Some(NumState::Dot)
        } else if c == 'e' || c == 'E' {
            Some(NumState::Exp)
        } else {
            None
        },
        NumState::Dot => if json_digit(c) {
            Some(NumState::Frac)
        } else {
            None
        },
        NumState::Frac => if json_digit(c) {
            Some(NumState::Frac)
        } else if c == 'e' || c == 'E' {
            Some(NumState::Exp)
        } else {
            None
        },
        NumState::Exp => if c == '+' || c == '-' {
            Some(NumState::ExpSign)
        } else if json_digit(c) {
            Some(NumState::ExpDigits)
        } else {
            None
        },
        NumState::ExpSign | NumState::ExpDigits => if json_digit(c) {
            Some(NumState::ExpDigits)
        } else {
            None
        },
    }
}

/// The states of `json_num_step` in which a whole number has been read.
pub open spec fn json_num_accepting(q: NumState) -> bool {
    q is Zero || q is Int || q is Frac || q is ExpDigits
}

/// A container that is open.
pub enum Frame {
    Object,
    Array,
}

/// Where a string's content stands.
pub enum StrState {
    /// Ordinary content.
    Plain,
    /// Right after a backslash.
    Escape,
    /// In a `\u` escape, after this many of its four hex digits.
    Unicode(nat),
}

/// What the automaton expects next.
pub enum Mode {
    /// A value (at the start, after `:`, or after `,` in an array).
    Value,
    /// A value or `]`, right after `[`.
    ArrayStart,
    /// A key or `}`, right after `{`.
    ObjectStart,
    /// A key, after `,` in an object.
    Key,
    /// Inside a key.
    InKey(StrState),
    /// The `:` after a key.
    AfterKey,
    /// Inside a string value.
    InString(StrState),
    /// Inside a number.
    Number(NumState),
    /// Inside the literal `literal_text(k)`, of which `m` characters were read.
    Literal(nat, nat),
    /// `,` or the end of the container, after a value.
    AfterValue,
}

/// The automaton's state: the open containers, innermost last, and the mode.
pub struct JsonState {
    pub stack: Seq<Frame>,
    pub mode: Mode,
}

/// `true`, `false` and `null`.
pub open spec fn literal_text(k: nat) -> Seq<char> {
    if k == 0 {
        seq!['t', 'r', 'u', 'e']
    } else if k == 1 {
        seq!['f', 'a', 'l', 's', 'e']
    } else {
        seq!['n', 'u', 'l', 'l']
    }
}

/// The state before any input.
pub open spec fn json_init() -> JsonState {
    JsonState { stack: seq![], mode: Mode::Value }
}

/// The state after character `c` starts a value.
pub open spec fn value_start(stack: Seq<Frame>, c: char) -> Option<JsonState> {
    if c == '{' {
        Some(JsonState { stack: stack.push(Frame::Object), mode: Mode::ObjectStart })
    } else if c == '[' {
        Some(JsonState { stack: stack.push(Frame::Array), mode: Mode::ArrayStart })
    } else if c == '"' {
        Some(JsonState { stack, mode: Mode::InString(StrState::Plain) })
    } else if c == '-' || json_digit(c) {
        match json_num_step(NumState::Start, c) {
            Some(q) => Some(JsonState { stack, mode: Mode::Number(q) }),
            None => None,
        }
    } else if c == 't' {
        Some(JsonState { stack, mode: Mode::Literal(0, 1) })
    } else if c == 'f' {
        Some(JsonState { stack, mode: Mode::Literal(1, 1) })
    } else if c == 'n' {
        Some(JsonState { stack, mode: Mode::Literal(2, 1) })
    } else {
        None
    }
}

/// The state after character `c` follows a value.
pub open spec fn after_value(stack: Seq<Frame>, c: char) -> Option<JsonState> {
    if is_json_white_space(c) {
        Some(JsonState { stack, mode: Mode::AfterValue })
    } else if stack.len() == 0 {
        None
    } else if c == ',' {
        match stack.last() {
            Frame::Object => Some(JsonState { stack, mode: Mode::Key }),
            Frame::Array => Some(JsonState { stack, mode: Mode::Value }),
        }
    } else if c == '}' && stack.last() is Object {
        Some(JsonState { stack: stack.drop_last(), mode: Mode::AfterValue })
    } else if c == ']' && stack.last() is Array {
        Some(JsonState { stack: stack.drop_last(), mode: Mode::AfterValue })
    } else {
        None
    }
}

/// One character of string content: `Some(None)` when it closes the string.
pub open spec fn string_step(e: StrState, c: char) -> Option<Option<StrState>> {
    match e {
        StrState::Plain => if c == '"' {
            Some(None)
        } else if c == '\\' {
            Some(Some(StrState::Escape))
        } else if (c as u32) < 0x20 {
            None
        } else {
            Some(Some(StrState::Plain))
        },
        StrState::Escape => if c == '"' || c == '\\' || c == '/' || c == 'b' || c == 'f' || c
            == 'n' || c == 'r' || c == 't' {
            Some(Some(StrState::Plain))
        } else if c == 'u' {
            Some(Some(StrState::Unicode(0)))
        } else {
            None
        },
        StrState::Unicode(k) => if json_hex_digit(c) {
            if k + 1 >= 4 {
                Some(Some(StrState::Plain))
            } else {
                Some(Some(StrState::Unicode(k + 1)))
            }
        } else {
            None
        },
    }
}

/// One step of the automaton; `None` when `c` cannot come next.
pub open spec fn json_step(st: JsonState, c: char) -> Option<JsonState> {
    let stack = st.stack;
    match st.mode {
        Mode::Value => if is_json_white_space(c) {
            Some(st)
        } else {
            value_start(stack, c)
        },
        Mode::ArrayStart => if is_json_white_space(c) {
            Some(st)
        } else if c == ']' {
            Some(JsonState { stack: stack.drop_last(), mode: Mode::AfterValue })
        } else {
            value_start(stack, c)
        },
        Mode::ObjectStart => if is_json_white_space(c) {
            Some(st)
        } else if c == '}' {
            Some(JsonState { stack: stack.drop_last(), mode: Mode::AfterValue })
        } else if c == '"' {
            Some(JsonState { stack, mode: Mode::InKey(StrState::Plain) })
        } else {
            None
        },
        Mode::Key => if is_json_white_space(c) {
            Some(st)
        } else if c == '"' {
            Some(JsonState { stack, mode: Mode::InKey(StrState::Plain) })
        } else {
            None
        },
        Mode::InKey(e) => match string_step(e, c) {
            Some(Some(e2)) => Some(JsonState { stack, mode: Mode::InKey(e2) }),
            Some(None) => Some(JsonState { stack, mode: Mode::AfterKey }),
            None => None,
        },
        Mode::AfterKey => if is_json_white_space(c) {
            Some(st)
        } else if c == ':' {
            Some(JsonState { stack, mode: Mode::Value })
        } else {
            None
        },
        Mode::InString(e) => match string_step(e, c) {
            Some(Some(e2)) => Some(JsonState { stack, mode: Mode::InString(e2) }),
            Some(None) => Some(JsonState { stack, mode: Mode::AfterValue }),
            None => None,
        },
        Mode::Number(q) => match json_num_step(q, c) {
            Some(p) => Some(JsonState { stack, mode: Mode::Number(p) }),
            None => if json_num_accepting(q) {
                after_value(stack, c)
            } else {
                None
            },
        },
        Mode::Literal(k, m) => if m < literal_text(k).len() && c == literal_text(k)[m as int] {
            if m + 1 == literal_text(k).len() {
                Some(JsonState { stack, mode: Mode::AfterValue })
            } else {
                Some(JsonState { stack, mode: Mode::Literal(k, m + 1) })
            }
        } else {
            None
        },
        Mode::AfterValue => after_value(stack, c),
    }
}

/// Runs the automaton from `st` over `s`.
pub open spec fn json_run_from(st: JsonState, s: Seq<char>) -> Option<JsonState>
    decreases s.len(),
{
    if s.len() == 0 {
        Some(st)
    } else {
        match json_run_from(st, s.drop_last()) {
            Some(p) => json_step(p, s.last()),
            None => None,
        }
    }
}

/// The state after `s`.
pub open spec fn json_run(s: Seq<char>) -> Option<JsonState> {
    json_run_from(json_init(), s)
}

/// Whether the automaton may stop in `st`: every container is closed and a
/// value was read whole.
pub open spec fn json_accepting(st: JsonState) -> bool {
    &&& st.stack.len() == 0
    &&& match st.mode {
        Mode::AfterValue => true,
        Mode::Number(q) => json_num_accepting(q),
        _ => false,
    }
}

/// `s` is the beginning of some JSON text.
pub open spec fn is_json_prefix(s: Seq<char>) -> bool {
    json_run(s) is Some
}

/// `s` is a whole JSON text.
pub open spec fn is_json_text(s: Seq<char>) -> bool {
    match json_run(s) {
        Some(st) => json_accepting(st),
        None => false,
    }
}

} // verus!
