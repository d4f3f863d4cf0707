//! The values that the parser builds, their mathematical model, and how they
//! are written back as text.
use vstd::prelude::*;

use crate::chars::{push_char};
use crate::tokenizer::{JsonToken, JsonTokenKind};
use crate::chars::{decimal_text, push_decimal};

verus! {

/// Why parsing failed.
#[derive(Debug)]
pub enum JsonError {
    UnexpectedEnd,
    ExpectedToken { got: JsonToken, expected: Option<JsonTokenKind> },
}

/// A parsed JSON value; strings and numbers borrow from the source text.
#[derive(Debug)]
pub enum JsonValue<'a> {
    Array(JsonArray<'a>),
    Object(JsonObject<'a>),
    Unit(JsonUnit<'a>),
    Null,
}

/// A parsed array.
#[derive(Debug)]
pub struct JsonArray<'a> {
    pub members: Vec<JsonValue<'a>>,
}

/// A parsed object: its keys and values in source order.
#[derive(Debug)]
pub struct JsonObject<'a> {
    pub values: Vec<(JsonUnit<'a>, JsonValue<'a>)>,
}

/// A parsed scalar. A string holds the text between its quotes, unescaped
/// characters included as they are.
#[derive(Debug)]
pub enum JsonUnit<'a> {
    Null,
    Number(&'a str),
    String(&'a str),
    True,
    False,
}

/// The model of a `JsonUnit`.
pub enum UnitView {
    Null,
    Number(Seq<char>),
    String(Seq<char>),
    True,
    False,
}

/// The model of a `JsonValue`.
pub enum ValueView {
    Array(Seq<ValueView>),
    Object(Seq<(UnitView, ValueView)>),
    Unit(UnitView),
    Null,
}

impl<'a> View for JsonUnit<'a> {
    type V = UnitView;

    open spec fn view(&self) -> UnitView {
        match self {
            JsonUnit::Null => UnitView::Null,
            JsonUnit::Number(n) => UnitView::Number(n@),
            JsonUnit::String(s) => UnitView::String(s@),
            JsonUnit::True => UnitView::True,
            JsonUnit::False => UnitView::False,
        }
    }
}

/// The models of a sequence of values.
pub open spec fn view_members<'a>(ms: Seq<JsonValue<'a>>) -> Seq<ValueView>
    decreases ms, 0nat,
{
    if ms.len() == 0 {
        seq![]
    } else {
        view_members(ms.drop_last()).push(view_value(ms.last()))
    }
}

/// The models of a sequence of key-value pairs.
pub open spec fn view_entries<'a>(es: Seq<(JsonUnit<'a>, JsonValue<'a>)>) -> Seq<(UnitView, ValueView)>
    decreases es, 0nat,
{
    if es.len() == 0 {
        seq![]
    } else {
        view_entries(es.drop_last()).push((es.last().0@, view_value(es.last().1)))
    }
}

/// The model of a value.
pub open spec fn view_value<'a>(v: JsonValue<'a>) -> ValueView
    decreases v, 1nat,
{
    match v {
        JsonValue::Array(a) => ValueView::Array(view_members(a.members@)),
        JsonValue::Object(o) => ValueView::Object(view_entries(o.values@)),
        JsonValue::Unit(u) => ValueView::Unit(u@),
        JsonValue::Null => ValueView::Null,
    }
}

impl<'a> View for JsonValue<'a> {
    type V = ValueView;

    open spec fn view(&self) -> ValueView {
        view_value(*self)
    }
}

impl<'a> View for JsonArray<'a> {
    type V = Seq<ValueView>;

    open spec fn view(&self) -> Seq<ValueView> {
        view_members(self.members@)
    }
}

impl<'a> View for JsonObject<'a> {
    type V = Seq<(UnitView, ValueView)>;

    open spec fn view(&self) -> Seq<(UnitView, ValueView)> {
        view_entries(self.values@)
    }
}

/// `null`.
pub open spec fn null_text() -> Seq<char> {
    seq!['n', 'u', 'l', 'l']
}

/// The text of a scalar: strings get their quotes back, numbers are written
/// as they were read.
pub open spec fn unit_text(u: UnitView) -> Seq<char> {
    match u {
        UnitView::True => seq!['t', 'r', 'u', 'e'],
        UnitView::False => seq!['f', 'a', 'l', 's', 'e'],
        UnitView::Null => null_text(),
        UnitView::Number(n) => n,
        UnitView::String(s) => seq!['"'] + s + seq!['"'],
    }
}

/// `, `, which separates members and entries.
pub open spec fn separator() -> Seq<char> {
    seq![',', ' ']
}

/// The texts of values, separated by `, `.
pub open spec fn members_text(ms: Seq<ValueView>) -> Seq<char>
    decreases ms, 0nat,
{
    if ms.len() == 0 {
        seq![]
    } else if ms.len() == 1 {
        value_text(ms[0])
    } else {
        members_text(ms.drop_last()) + separator() + value_text(ms.last())
    }
}

/// The text of one entry: `key: value`.
pub open spec fn entry_text(k: UnitView, v: ValueView) -> Seq<char>
    decreases v, 3nat,
{
    unit_text(k) + seq![':', ' '] + value_text(v)
}

/// The texts of entries, separated by `, `.
pub open spec fn entries_text(es: Seq<(UnitView, ValueView)>) -> Seq<char>
    decreases es, 1nat,
{
    if es.len() == 0 {
        seq![]
    } else if es.len() == 1 {
        entry_text(es[0].0, es[0].1)
    } else {
        entries_text(es.drop_last()) + separator() + entry_text(es.last().0, es.last().1)
    }
}

/// The text of a value.
pub open spec fn value_text(v: ValueView) -> Seq<char>
    decreases v, 2nat,
{
    match v {
        ValueView::Unit(u) => unit_text(u),
        ValueView::Object(es) => seq!['{'] + entries_text(es) + seq!['}'],
        ValueView::Array(ms) => seq!['['] + members_text(ms) + seq![']'],
        ValueView::Null => null_text(),
    }
}

/// The models of a sequence of values, element by element.
pub proof fn lemma_view_members<'a>(ms: Seq<JsonValue<'a>>)
    ensures
        view_members(ms).len() == ms.len(),
        forall|i: int| 0 <= i < ms.len() ==> #[trigger] view_members(ms)[i] == view_value(ms[i]),
    decreases ms.len(),
{
    if ms.len() > 0 {
        lemma_view_members(ms.drop_last());
        assert forall|i: int| 0 <= i < ms.len() implies #[trigger] view_members(ms)[i] == view_value(
            ms[i],
        ) by {
            if i < ms.len() - 1 {
                assert(ms.drop_last()[i] == ms[i]);
            }
        }
    }
}

/// The models of a sequence of entries, element by element.
pub proof fn lemma_view_entries<'a>(es: Seq<(JsonUnit<'a>, JsonValue<'a>)>)
    ensures
        view_entries(es).len() == es.len(),
        forall|i: int|
            0 <= i < es.len() ==> #[trigger] view_entries(es)[i] == (es[i].0@, view_value(es[i].1)),
    decreases es.len(),
{
    if es.len() > 0 {
        lemma_view_entries(es.drop_last());
        assert forall|i: int| 0 <= i < es.len() implies #[trigger] view_entries(es)[i] == (
            es[i].0@,
            view_value(es[i].1),
        ) by {
            if i < es.len() - 1 {
                assert(es.drop_last()[i] == es[i]);
            }
        }
    }
}

/// Appends `, `.
fn push_separator(out: &mut String)
    ensures
        final(out)@ == old(out)@ + separator(),
{
    let ghost o = out@;
    push_char(out, ',');
    push_char(out, ' ');
    assert(out@ =~= o + separator());
}

/// Appends `null`.
fn push_null(out: &mut String)
    ensures
        final(out)@ == old(out)@ + null_text(),
{
    let ghost o = out@;
    push_char(out, 'n');
    push_char(out, 'u');
    push_char(out, 'l');
    push_char(out, 'l');
    assert(out@ =~= o + null_text());
}

impl<'a> JsonUnit<'a> {
    /// Appends the text of this scalar to `out`.
    pub fn write_to(&self, out: &mut String)
        ensures
            final(out)@ == old(out)@ + unit_text(self@),
    {
        let ghost o = out@;
        match self {
            JsonUnit::True => {
                push_char(out, 't');
                push_char(out, 'r');
                push_char(out, 'u');
                push_char(out, 'e');
                assert(out@ =~= o + unit_text(self@));
            },
            JsonUnit::False => {
                push_char(out, 'f');
                push_char(out, 'a');
                push_char(out, 'l');
                push_char(out, 's');
                push_char(out, 'e');
                assert(out@ =~= o + unit_text(self@));
            },
            JsonUnit::Null => {
                push_null(out);
            },
            JsonUnit::Number(n) => {
                out.append(n);
            },
            JsonUnit::String(s) => {
                push_char(out, '"');
                out.append(s);
                push_char(out, '"');
                assert(out@ =~= o + unit_text(self@));
            },
        }
    }

    /// The text of this scalar.
    pub fn to_string(&self) -> (r: String)
        ensures
            r@ == unit_text(self@),
    {
        let mut out = String::new();
        self.write_to(&mut out);
        assert(out@ =~= unit_text(self@));
        out
    }
}

impl<'a> JsonValue<'a> {
    /// Appends the text of this value to `out`.
    pub fn write_to(&self, out: &mut String)
        ensures
            final(out)@ == old(out)@ + value_text(self@),
        decreases self, 0nat,
    {
        let ghost o = out@;
        match self {
            JsonValue::Unit(unit) => {
                unit.write_to(out);
            },
            JsonValue::Object(object) => {
                object.write_to(out);
            },
            JsonValue::Array(array) => {
                array.write_to(out);
            },
            JsonValue::Null => {
                push_null(out);
            },
        }
    }

    /// The text of this value.
    pub fn to_string(&self) -> (r: String)
        ensures
            r@ == value_text(self@),
    {
        let mut out = String::new();
        self.write_to(&mut out);
        assert(out@ =~= value_text(self@));
        out
    }
}

impl<'a> JsonArray<'a> {
    /// Appends the text of this array to `out`.
    pub fn write_to(&self, out: &mut String)
        ensures
            final(out)@ == old(out)@ + seq!['['] + members_text(self@) + seq![']'],
        decreases self, 1nat,
    {
        let ghost o = out@;
        let ghost ms = self@;
        proof {
            lemma_view_members(self.members@);
        }
        push_char(out, '[');
        let mut i: usize = 0;
        while i < self.members.len()
            invariant
                i <= self.members@.len(),
                ms == self@,
                ms.len() == self.members@.len(),
                forall|j: int| 0 <= j < ms.len() ==> #[trigger] ms[j] == view_value(self.members@[j]),
                out@ == o + seq!['['] + members_text(ms.take(i as int)),
            decreases self.members@.len() - i,
        {
            let ghost before = out@;
            if i > 0 {
                push_separator(out);
            }
            self.members[i].write_to(out);
            proof {
                assert(ms.take(i + 1).drop_last() =~= ms.take(i as int));
                if i == 0 {
                    assert(out@ =~= o + seq!['['] + members_text(ms.take(i + 1)));
                } else {
                    assert(out@ =~= o + seq!['['] + members_text(ms.take(i + 1)));
                }
            }
            i = i + 1;
        }
        assert(ms.take(i as int) =~= ms);
        push_char(out, ']');
        assert(out@ =~= o + seq!['['] + members_text(self@) + seq![']']);
    }

    /// The text of this array.
    pub fn to_string(&self) -> (r: String)
        ensures
            r@ == seq!['['] + members_text(self@) + seq![']'],
    {
        let mut out = String::new();
        self.write_to(&mut out);
        assert(out@ =~= seq!['['] + members_text(self@) + seq![']']);
        out
    }
}

impl<'a> JsonObject<'a> {
    /// Appends the text of this object to `out`.
    pub fn write_to(&self, out: &mut String)
        ensures
            final(out)@ == old(out)@ + seq!['{'] + entries_text(self@) + seq!['}'],
        decreases self, 1nat,
    {
        let ghost o = out@;
        let ghost es = self@;
        proof {
            lemma_view_entries(self.values@);
        }
        push_char(out, '{');
        let mut i: usize = 0;
        while i < self.values.len()
            invariant
                i <= self.values@.len(),
                es == self@,
                es.len() == self.values@.len(),
                forall|j: int|
                    0 <= j < es.len() ==> #[trigger] es[j] == (
                        self.values@[j].0@,
                        view_value(self.values@[j].1),
                    ),
                out@ == o + seq!['{'] + entries_text(es.take(i as int)),
            decreases self.values@.len() - i,
        {
            if i > 0 {
                push_separator(out);
            }
            let ghost mid = out@;
            self.values[i].0.write_to(out);
            push_char(out, ':');
            push_char(out, ' ');
            self.values[i].1.write_to(out);
            proof {
                assert(out@ =~= mid + entry_text(es[i as int].0, es[i as int].1));
                assert(es.take(i + 1).drop_last() =~= es.take(i as int));
                assert(out@ =~= o + seq!['{'] + entries_text(es.take(i + 1)));
            }
            i = i + 1;
        }
        assert(es.take(i as int) =~= es);
        push_char(out, '}');
        assert(out@ =~= o + seq!['{'] + entries_text(self@) + seq!['}']);
    }

    /// The text of this object.
    pub fn to_string(&self) -> (r: String)
        ensures
            r@ == seq!['{'] + entries_text(self@) + seq!['}'],
    {
        let mut out = String::new();
        self.write_to(&mut out);
        assert(out@ =~= seq!['{'] + entries_text(self@) + seq!['}']);
        out
    }
}

/// The name of a token kind, as `Debug` writes it.
pub open spec fn kind_name(k: JsonTokenKind) -> Seq<char> {
    match k {
        JsonTokenKind::OpeningBrace => "OpeningBrace"@,
        JsonTokenKind::ClosingBrace => "ClosingBrace"@,
        JsonTokenKind::OpeningSquareBracket => "OpeningSquareBracket"@,
        JsonTokenKind::ClosingSquareBracket => "ClosingSquareBracket"@,
        JsonTokenKind::Comma => "Comma"@,
        JsonTokenKind::Colon => "Colon"@,
        JsonTokenKind::String => "String"@,
        JsonTokenKind::Number => "Number"@,
        JsonTokenKind::Null => "Null"@,
    }
}

/// The name of a token kind.
pub fn token_kind_name(k: JsonTokenKind) -> (r: &'static str)
    ensures
        r@ == kind_name(k),
{
    match k {
        JsonTokenKind::OpeningBrace => "OpeningBrace",
        JsonTokenKind::ClosingBrace => "ClosingBrace",
        JsonTokenKind::OpeningSquareBracket => "OpeningSquareBracket",
        JsonTokenKind::ClosingSquareBracket => "ClosingSquareBracket",
        JsonTokenKind::Comma => "Comma",
        JsonTokenKind::Colon => "Colon",
        JsonTokenKind::String => "String",
        JsonTokenKind::Number => "Number",
        JsonTokenKind::Null => "Null",
    }
}

/// The message of an error.
pub open spec fn error_text(e: JsonError) -> Seq<char> {
    match e {
        JsonError::UnexpectedEnd => "Unexpected end of input"@,
        JsonError::ExpectedToken { got, expected } => match expected {
            Some(k) => "Expected token "@ + kind_name(k) + " at char "@ + decimal_text(
                got.span.start as nat,
            ) + ", got "@ + kind_name(got.kind),
            None => "Unexpected token "@ + kind_name(got.kind) + " at char "@ + decimal_text(
                got.span.start as nat,
            ),
        },
    }
}

impl JsonError {
    /// The message of this error.
    pub fn to_string(&self) -> (r: String)
        ensures
            r@ == error_text(*self),
    {
        let mut out = String::new();
        match self {
            JsonError::UnexpectedEnd => {
                out.append("Unexpected end of input");
            },
            JsonError::ExpectedToken { got, expected } => {
                if let Some(expected) = expected {
                    out.append("Expected token ");
                    out.append(token_kind_name(*expected));
                    out.append(" at char ");
                    push_decimal(&mut out, got.span.start);
                    out.append(", got ");
                    out.append(token_kind_name(got.kind));
                } else {
                    out.append("Unexpected token ");
                    out.append(token_kind_name(got.kind));
                    out.append(" at char ");
                    push_decimal(&mut out, got.span.start);
                }
            },
        }
        assert(out@ =~= error_text(*self));
        out
    }
}

} // verus!
