//! Reading back what `to_string` writes: for values whose text the
//! tokenizer can split unambiguously, parsing the text gives the value back.
use vstd::prelude::*;

use crate::chars::{is_bareword_char, white_space};
use crate::grammar::is_json_white_space;
use crate::number::is_json_number;
use crate::parser::{escaped_after, next_char_is, parse_array_at, parse_object_at, parse_unit_at, parse_value_at, unit_of};
use crate::offsets::{lemma_byte_pos_strict, lemma_char_index};
use crate::repair_proof::lemma_num_run_chars;
use vstd::utf8::encode_utf8;
use crate::run_lemmas::lemma_ascii_bareword;
use crate::tokenizer::{bareword_end, next_token, skip_white_space, string_end, token, JsonTokenKind};
use crate::value::{
    entries_text, entry_text, members_text, null_text, separator, unit_text, value_text, JsonError,
    UnitView, ValueView,
};

verus! {

/// The content `c` of a string, read with the tokenizer's escape rule from
/// the state `escaped`, holds no quote that would end the string, and does
/// not end in the middle of an escape.
pub open spec fn string_content_ok(c: Seq<char>, escaped: bool) -> bool
    decreases c.len(),
{
    if c.len() == 0 {
        !escaped
    } else {
        !(c[0] == '"' && !escaped) && string_content_ok(c.drop_first(), !escaped && c[0] == '\\')
    }
}

/// Well-formed string content leaves no backslash pending at its end.
proof fn lemma_content_not_escaped(c: Seq<char>, escaped: bool)
    requires
        string_content_ok(c, escaped),
    ensures
        !escaped_after(c, escaped),
    decreases c.len(),
{
    if c.len() > 0 {
        lemma_content_not_escaped(c.drop_first(), !escaped && c[0] == '\\');
    }
}

/// A scalar whose text reads back as itself.
pub open spec fn unit_ok(u: UnitView) -> bool {
    match u {
        UnitView::Number(n) => is_json_number(n),
        UnitView::String(c) => string_content_ok(c, false),
        _ => true,
    }
}

/// Values whose text reads back as themselves: scalars as above, and
/// arrays and objects of such values.
pub open spec fn value_ok(v: ValueView) -> bool
    decreases v, 2nat,
{
    match v {
        ValueView::Unit(u) => unit_ok(u),
        ValueView::Array(ms) => members_ok(ms),
        ValueView::Object(es) => entries_ok(es),
        ValueView::Null => false,
    }
}

/// Every member reads back as itself.
pub open spec fn members_ok(ms: Seq<ValueView>) -> bool
    decreases ms, 1nat,
{
    if ms.len() == 0 {
        true
    } else {
        members_ok(ms.drop_last()) && value_ok(ms.last())
    }
}

/// Every key and every value reads back as itself.
pub open spec fn entries_ok(es: Seq<(UnitView, ValueView)>) -> bool
    decreases es, 1nat,
{
    if es.len() == 0 {
        true
    } else {
        entries_ok(es.drop_last()) && unit_ok(es.last().0) && value_ok(es.last().1)
    }
}

/// `skip_white_space` stops at the first character that is no white space.
proof fn lemma_skip_to(s: Seq<char>, a: int, w: int)
    requires
        0 <= a,
        0 <= w,
        a + w < s.len(),
        forall|i: int| a <= i < a + w ==> is_json_white_space(#[trigger] s[i]),
        !white_space(s[a + w]),
    ensures
        skip_white_space(s, a) == a + w,
    decreases w,
{
    if w > 0 {
        lemma_ascii_bareword(s[a]);
        lemma_skip_to(s, a + 1, w - 1);
    }
}

/// `bareword_end` runs over bare-token characters to the first other one.
proof fn lemma_bareword_to(s: Seq<char>, b: int, e: int)
    requires
        0 <= b <= e <= s.len(),
        forall|i: int| b <= i < e ==> is_bareword_char(#[trigger] s[i]),
        e == s.len() || !is_bareword_char(s[e]),
    ensures
        bareword_end(s, b) == e,
    decreases e - b,
{
    if b < e {
        lemma_bareword_to(s, b + 1, e);
    }
}

/// `string_end` stops right after the quote that follows a well-formed
/// content.
proof fn lemma_string_to(s: Seq<char>, b: int, c: Seq<char>, k: int, escaped: bool)
    requires
        0 <= b,
        0 <= k <= c.len(),
        b + c.len() < s.len(),
        s.subrange(b, b + c.len()) == c,
        s[b + c.len()] == '"',
        string_content_ok(c.subrange(k, c.len() as int), escaped),
    ensures
        string_end(s, b + k, escaped) == b + c.len() + 1,
    decreases c.len() - k,
{
    let rest = c.subrange(k, c.len() as int);
    if k < c.len() {
        assert(s[b + k] == c[k]);
        assert(rest[0] == c[k]);
        assert(rest.drop_first() =~= c.subrange(k + 1, c.len() as int));
        lemma_string_to(s, b, c, k + 1, !escaped && c[k] == '\\');
    }
}

/// A scalar's text, after white space, reads back as the scalar.
proof fn lemma_read_unit(s: Seq<char>, a: int, w: int, u: UnitView)
    requires
        encode_utf8(s).len() <= usize::MAX,
        0 <= a,
        0 <= w,
        forall|i: int| a <= i < a + w ==> is_json_white_space(#[trigger] s[i]),
        a + w + unit_text(u).len() <= s.len(),
        s.subrange(a + w, a + w + unit_text(u).len()) == unit_text(u),
        unit_ok(u),
        !(u is String) ==> (a + w + unit_text(u).len() == s.len() || !is_bareword_char(
            s[a + w + unit_text(u).len()],
        )),
    ensures
        next_token(s, a).1 == a + w + unit_text(u).len(),
        next_token(s, a).0 matches Some(t) && (t.kind is String || t.kind is Number) && unit_of(s, t)
            == u,
{
    let x = a + w;
    let text = unit_text(u);
    let end = x + text.len();
    assert(s[x] == text[0]);
    lemma_byte_pos_strict(s, x, end);
    lemma_byte_pos_strict(s, end, s.len() as int);
    lemma_char_index(s, x);
    lemma_char_index(s, end);
    match u {
        UnitView::String(c) => {
            assert(text =~= seq!['"'] + c + seq!['"']);
            assert(text.len() == c.len() + 2);
            assert forall|i: int| 0 <= i < c.len() implies #[trigger] s.subrange(
                x + 1,
                x + 1 + c.len(),
            )[i] == c[i] by {
                assert(s[x + 1 + i] == s.subrange(x, end)[1 + i]);
                assert(text[1 + i] == c[i]);
            }
            assert(s.subrange(x + 1, x + 1 + c.len()) =~= c);
            assert(s[x + 1 + c.len()] == text[c.len() + 1 as int]);
            assert(c.subrange(0, c.len() as int) =~= c);
            lemma_skip_to(s, a, w);
            lemma_string_to(s, x + 1, c, 0, false);
            let src = s.subrange(x, end);
            assert(src =~= text);
            assert(src.subrange(1, src.len() - 1) =~= c);
            lemma_content_not_escaped(c, false);
        },
        UnitView::Number(n) => {
            lemma_num_run_chars(n);
            lemma_ascii_bareword(n[0]);
            lemma_skip_to(s, a, w);
            assert forall|i: int| x + 1 <= i < end implies is_bareword_char(#[trigger] s[i]) by {
                assert(s[i] == n[i - x]);
                lemma_ascii_bareword(n[i - x]);
            }
            lemma_bareword_to(s, x + 1, end);
            assert(s.subrange(x, end) =~= n);
            assert(n != seq!['t', 'r', 'u', 'e']);
            assert(n != seq!['f', 'a', 'l', 's', 'e']);
        },
        _ => {
            lemma_ascii_bareword(text[0]);
            lemma_skip_to(s, a, w);
            assert forall|i: int| x + 1 <= i < end implies is_bareword_char(#[trigger] s[i]) by {
                assert(s[i] == text[i - x]);
                lemma_ascii_bareword(text[i - x]);
            }
            lemma_bareword_to(s, x + 1, end);
            assert(s.subrange(x, end) =~= text);
            if u is Null {
                assert(!is_json_number(text)) by {
                    lemma_not_number_null();
                }
            }
        },
    }
}

/// `null` is no number.
proof fn lemma_not_number_null()
    ensures
        !is_json_number(null_text()),
{
    let t = null_text();
    assert(t.take(1) =~= seq!['n']);
    assert(seq!['n'].drop_last() =~= Seq::<char>::empty());
    assert(crate::number::num_run(seq!['n']) is None);
    crate::number::lemma_num_run_dead(t, 1);
}

/// The text of a value is not empty and starts a value.
proof fn lemma_value_text_first(v: ValueView)
    requires
        value_ok(v),
    ensures
        value_text(v).len() > 0,
        !white_space(value_text(v)[0]),
        value_text(v)[0] != ']' && value_text(v)[0] != '}',
{
    match v {
        ValueView::Unit(u) => {
            match u {
                UnitView::Number(n) => {
                    lemma_num_run_chars(n);
                },
                _ => {},
            }
        },
        _ => {},
    }
}

/// The text of the first `k` members is a prefix of the text of all, and a
/// `, ` follows it when members remain.
proof fn lemma_members_prefix(ms: Seq<ValueView>, k: int)
    requires
        1 <= k <= ms.len(),
    ensures
        members_text(ms.take(k)).len() <= members_text(ms).len(),
        members_text(ms).take(members_text(ms.take(k)).len() as int) == members_text(ms.take(k)),
        k < ms.len() ==> members_text(ms).len() >= members_text(ms.take(k)).len() + 2 && members_text(
            ms,
        )[members_text(ms.take(k)).len() as int] == ',' && members_text(ms)[members_text(
            ms.take(k),
        ).len() + 1int] == ' ',
    decreases ms.len(),
{
    if k == ms.len() {
        assert(ms.take(k) =~= ms);
        assert(members_text(ms).take(members_text(ms).len() as int) =~= members_text(ms));
    } else {
        let d = ms.drop_last();
        assert(d.take(k) =~= ms.take(k));
        let m = members_text(ms);
        let md = members_text(d);
        assert(m == md + separator() + value_text(ms.last()));
        let mk = members_text(ms.take(k));
        if k < d.len() {
            lemma_members_prefix(d, k);
        } else {
            assert(d.take(k) =~= d);
        }
        assert(m.take(mk.len() as int) =~= md.take(mk.len() as int));
        if k < d.len() {
            assert(m[mk.len() as int] == md[mk.len() as int]);
            assert(m[mk.len() + 1int] == md[mk.len() + 1int]);
        }
    }
}

/// The text of the first `j + 1` members extends that of the first `j`.
proof fn lemma_members_step(ms: Seq<ValueView>, j: int)
    requires
        0 <= j < ms.len(),
    ensures
        members_text(ms.take(j + 1)) == members_text(ms.take(j)) + (if j > 0 {
            separator()
        } else {
            Seq::<char>::empty()
        }) + value_text(ms[j]),
{
    let t = ms.take(j + 1);
    assert(t.drop_last() =~= ms.take(j));
    if j == 0 {
        assert(ms.take(0) =~= Seq::<ValueView>::empty());
        assert(members_text(ms.take(0)) =~= Seq::<char>::empty());
        assert(members_text(t) =~= value_text(ms[0]));
    }
}

/// Every member of well-formed members is well formed.
proof fn lemma_members_ok(ms: Seq<ValueView>, j: int)
    requires
        members_ok(ms),
        0 <= j < ms.len(),
    ensures
        value_ok(ms[j]),
    decreases ms.len(),
{
    if j < ms.len() - 1 {
        assert(ms.drop_last()[j] == ms[j]);
        lemma_members_ok(ms.drop_last(), j);
    }
}

/// The text of the first `k` entries is a prefix of the text of all, and a
/// `, ` follows it when entries remain.
proof fn lemma_entries_prefix(es: Seq<(UnitView, ValueView)>, k: int)
    requires
        1 <= k <= es.len(),
    ensures
        entries_text(es.take(k)).len() <= entries_text(es).len(),
        entries_text(es).take(entries_text(es.take(k)).len() as int) == entries_text(es.take(k)),
        k < es.len() ==> entries_text(es).len() >= entries_text(es.take(k)).len() + 2 && entries_text(
            es,
        )[entries_text(es.take(k)).len() as int] == ',' && entries_text(es)[entries_text(
            es.take(k),
        ).len() + 1int] == ' ',
    decreases es.len(),
{
    if k == es.len() {
        assert(es.take(k) =~= es);
        assert(entries_text(es).take(entries_text(es).len() as int) =~= entries_text(es));
    } else {
        let d = es.drop_last();
        assert(d.take(k) =~= es.take(k));
        let m = entries_text(es);
        let md = entries_text(d);
        assert(m == md + separator() + entry_text(es.last().0, es.last().1));
        let mk = entries_text(es.take(k));
        if k < d.len() {
            lemma_entries_prefix(d, k);
        } else {
            assert(d.take(k) =~= d);
        }
        assert(m.take(mk.len() as int) =~= md.take(mk.len() as int));
        if k < d.len() {
            assert(m[mk.len() as int] == md[mk.len() as int]);
            assert(m[mk.len() + 1int] == md[mk.len() + 1int]);
        }
    }
}

/// The text of the first `j + 1` entries extends that of the first `j`.
proof fn lemma_entries_step(es: Seq<(UnitView, ValueView)>, j: int)
    requires
        0 <= j < es.len(),
    ensures
        entries_text(es.take(j + 1)) == entries_text(es.take(j)) + (if j > 0 {
            separator()
        } else {
            Seq::<char>::empty()
        }) + entry_text(es[j].0, es[j].1),
{
    let t = es.take(j + 1);
    assert(t.drop_last() =~= es.take(j));
    if j == 0 {
        assert(es.take(0) =~= Seq::<(UnitView, ValueView)>::empty());
        assert(entries_text(es.take(0)) =~= Seq::<char>::empty());
        assert(entries_text(t) =~= entry_text(es[0].0, es[0].1));
    }
}

/// Every entry of well-formed entries is well formed.
proof fn lemma_entries_ok(es: Seq<(UnitView, ValueView)>, j: int)
    requires
        entries_ok(es),
        0 <= j < es.len(),
    ensures
        unit_ok(es[j].0),
        value_ok(es[j].1),
    decreases es.len(),
{
    if j < es.len() - 1 {
        assert(es.drop_last()[j] == es[j]);
        lemma_entries_ok(es.drop_last(), j);
    }
}

/// `t` stands in `s` at `a + w`, after `w` characters of white space.
pub open spec fn placed(s: Seq<char>, a: int, w: int, t: Seq<char>) -> bool {
    &&& 0 <= a
    &&& 0 <= w
    &&& forall|i: int| a <= i < a + w ==> is_json_white_space(#[trigger] s[i])
    &&& a + w + t.len() <= s.len()
    &&& s.subrange(a + w, a + w + t.len()) == t
}

/// No bare-token character follows position `e`.
pub open spec fn delimited(s: Seq<char>, e: int) -> bool {
    e == s.len() || !is_bareword_char(s[e])
}

/// A value's text, after white space, reads back as the value.
pub(crate) proof fn lemma_read_value(s: Seq<char>, a: int, w: int, v: ValueView)
    requires
        encode_utf8(s).len() <= usize::MAX,
        value_ok(v),
        placed(s, a, w, value_text(v)),
        delimited(s, a + w + value_text(v).len()),
    ensures
        parse_value_at(s, a) == (Ok::<ValueView, JsonError>(v), a + w + value_text(v).len()),
    decreases v, 0nat,
{
    let x = a + w;
    let text = value_text(v);
    let end = x + text.len();
    lemma_value_text_first(v);
    assert(s[x] == text[0]);
    match v {
        ValueView::Unit(u) => {
            lemma_read_unit(s, a, w, u);
        },
        ValueView::Array(ms) => {
            let mt = members_text(ms);
            assert(text =~= seq!['['] + mt + seq![']']);
            lemma_ascii_bareword('[');
            lemma_skip_to(s, a, w);
            if ms.len() == 0 {
                assert(s[x + 1] == text[1]);
                assert(ms =~= Seq::<ValueView>::empty());
            } else {
                assert forall|i: int| 0 <= i < mt.len() implies #[trigger] s.subrange(
                    x + 1,
                    x + 1 + mt.len(),
                )[i] == mt[i] by {
                    assert(s[x + 1 + i] == s.subrange(x, end)[1 + i]);
                    assert(text[1 + i] == mt[i]);
                }
                assert(s.subrange(x + 1, x + 1 + mt.len()) =~= mt);
                assert(s[x + 1 + mt.len()] == text[mt.len() + 1 as int]);
                assert(ms.take(0) =~= Seq::<ValueView>::empty());
                assert(members_text(ms.take(0)) =~= Seq::<char>::empty());
                lemma_read_members(s, x + 1, ms, 0);
            }
        },
        ValueView::Object(es) => {
            let et = entries_text(es);
            assert(text =~= seq!['{'] + et + seq!['}']);
            lemma_ascii_bareword('{');
            lemma_skip_to(s, a, w);
            if es.len() == 0 {
                assert(s[x + 1] == text[1]);
                assert(es =~= Seq::<(UnitView, ValueView)>::empty());
            } else {
                assert forall|i: int| 0 <= i < et.len() implies #[trigger] s.subrange(
                    x + 1,
                    x + 1 + et.len(),
                )[i] == et[i] by {
                    assert(s[x + 1 + i] == s.subrange(x, end)[1 + i]);
                    assert(text[1 + i] == et[i]);
                }
                assert(s.subrange(x + 1, x + 1 + et.len()) =~= et);
                assert(s[x + 1 + et.len()] == text[et.len() + 1 as int]);
                assert(es.take(0) =~= Seq::<(UnitView, ValueView)>::empty());
                assert(entries_text(es.take(0)) =~= Seq::<char>::empty());
                lemma_read_entries(s, x + 1, es, 0);
            }
        },
        ValueView::Null => {},
    }
}

/// Reading the members of an array from the `j`-th on.
#[verifier::spinoff_prover]
#[verifier::rlimit(40)]
proof fn lemma_read_members(s: Seq<char>, b: int, ms: Seq<ValueView>, j: int)
    requires
        encode_utf8(s).len() <= usize::MAX,
        0 <= b,
        ms.len() > 0,
        members_ok(ms),
        0 <= j < ms.len(),
        b + members_text(ms).len() < s.len(),
        s.subrange(b, b + members_text(ms).len()) == members_text(ms),
        s[b + members_text(ms).len()] == ']',
    ensures
        parse_array_at(
            s,
            b + members_text(ms.take(j)).len() + (if j > 0 {
                1int
            } else {
                0
            }),
            ms.take(j),
        ) == (Ok::<Seq<ValueView>, JsonError>(ms), b + members_text(ms).len() + 1),
    decreases ms, ms.len() - j,
{
    let m = members_text(ms);
    let n = ms.len() as int;
    let lj = members_text(ms.take(j)).len() as int;
    let pos = b + lj + (if j > 0 {
        1int
    } else {
        0
    });
    let w: int = if j > 0 {
        1
    } else {
        0
    };
    lemma_members_step(ms, j);
    lemma_members_prefix(ms, j + 1);
    if j > 0 {
        lemma_members_prefix(ms, j);
    }
    lemma_members_ok(ms, j);
    let v = ms[j];
    let tv = value_text(v);
    let e = pos + w + tv.len();
    let mj1 = members_text(ms.take(j + 1));
    assert(e == b + mj1.len());
    assert forall|i: int| 0 <= i < tv.len() implies #[trigger] s.subrange(pos + w, e)[i] == tv[i] by {
        assert(s[pos + w + i] == m[pos + w + i - b]);
        assert(m.take(mj1.len() as int)[pos + w + i - b] == mj1[pos + w + i - b]);
    }
    assert(s.subrange(pos + w, e) =~= tv);
    if j > 0 {
        assert(s[pos] == m[lj + 1]);
        assert(m.take(mj1.len() as int)[lj + 1] == mj1[lj + 1]);
        assert(s[pos] == ' ');
    }
    if j + 1 < n {
        assert(s[e] == m[mj1.len() as int]);
        assert(s[e] == ',');
    } else {
        assert(ms.take(j + 1) =~= ms);
        assert(s[e] == ']');
    }
    lemma_ascii_bareword(s[e]);
    lemma_read_value(s, pos, w, v);
    lemma_value_text_first(v);
    if j == 0 {
        assert(s[pos] == tv[0]);
    }
    assert(ms.take(j).push(v) =~= ms.take(j + 1));
    assert(skip_white_space(s, e) == e);
    if j + 1 < n {
        lemma_read_members(s, b, ms, j + 1);
    }
}

/// Where the parts of the `j`-th entry stand in `s`.
proof fn lemma_entry_layout(s: Seq<char>, b: int, es: Seq<(UnitView, ValueView)>, j: int)
    requires
        0 <= b,
        es.len() > 0,
        0 <= j < es.len(),
        b + entries_text(es).len() < s.len(),
        s.subrange(b, b + entries_text(es).len()) == entries_text(es),
        s[b + entries_text(es).len()] == '}',
    ensures
        ({
            let lj = entries_text(es.take(j)).len() as int;
            let w: int = if j > 0 {
                1
            } else {
                0
            };
            let pos = b + lj + w;
            let tk = unit_text(es[j].0);
            let tv = value_text(es[j].1);
            let kstart = pos + w;
            let colon = kstart + tk.len();
            let e = colon + 2 + tv.len();
            &&& e == b + entries_text(es.take(j + 1)).len()
            &&& s.subrange(kstart, colon) == tk
            &&& s[colon] == ':'
            &&& s[colon + 1] == ' '
            &&& s.subrange(colon + 2, e) == tv
            &&& j > 0 ==> s[pos] == ' '
            &&& j + 1 < es.len() ==> s[e] == ','
            &&& j + 1 == es.len() ==> s[e] == '}' && es.take(j + 1) == es
        }),
{
    let m = entries_text(es);
    let n = es.len() as int;
    let lj = entries_text(es.take(j)).len() as int;
    let w: int = if j > 0 {
        1
    } else {
        0
    };
    let pos = b + lj + w;
    lemma_entries_step(es, j);
    lemma_entries_prefix(es, j + 1);
    if j > 0 {
        lemma_entries_prefix(es, j);
    }
    let key = es[j].0;
    let v = es[j].1;
    let tk = unit_text(key);
    let tv = value_text(v);
    let et = entry_text(key, v);
    assert(et == tk + seq![':', ' '] + tv);
    let kstart = pos + w;
    let colon = kstart + tk.len();
    let e = colon + 2 + tv.len();
    let mj1 = entries_text(es.take(j + 1));
    assert(e == b + mj1.len());
    assert forall|i: int| kstart <= i < e implies #[trigger] s[i] == et[i - kstart] by {
        assert(s[i] == m[i - b]);
        assert(m.take(mj1.len() as int)[i - b] == mj1[i - b]);
    }
    assert(s.subrange(kstart, colon) =~= tk) by {
        assert forall|i: int| 0 <= i < tk.len() implies s.subrange(kstart, colon)[i] == tk[i] by {
            assert(s[kstart + i] == et[i]);
        }
    }
    assert(s[colon] == et[tk.len() as int]);
    assert(s[colon + 1] == et[tk.len() + 1int]);
    assert(s.subrange(colon + 2, e) =~= tv) by {
        assert forall|i: int| 0 <= i < tv.len() implies s.subrange(colon + 2, e)[i] == tv[i] by {
            assert(s[colon + 2 + i] == et[tk.len() + 2 + i]);
        }
    }
    if j > 0 {
        assert(s[pos] == m[lj + 1]);
        assert(m.take(mj1.len() as int)[lj + 1] == mj1[lj + 1]);
    }
    if j + 1 < n {
        assert(s[e] == m[mj1.len() as int]);
    } else {
        assert(es.take(j + 1) =~= es);
    }
}

/// Reading the entries of an object from the `j`-th on.
#[verifier::spinoff_prover]
#[verifier::rlimit(40)]
proof fn lemma_read_entries(s: Seq<char>, b: int, es: Seq<(UnitView, ValueView)>, j: int)
    requires
        encode_utf8(s).len() <= usize::MAX,
        0 <= b,
        es.len() > 0,
        entries_ok(es),
        0 <= j < es.len(),
        b + entries_text(es).len() < s.len(),
        s.subrange(b, b + entries_text(es).len()) == entries_text(es),
        s[b + entries_text(es).len()] == '}',
    ensures
        parse_object_at(
            s,
            b + entries_text(es.take(j)).len() + (if j > 0 {
                1int
            } else {
                0
            }),
            es.take(j),
        ) == (Ok::<Seq<(UnitView, ValueView)>, JsonError>(es), b + entries_text(es).len() + 1),
    decreases es, es.len() - j,
{
    let n = es.len() as int;
    let lj = entries_text(es.take(j)).len() as int;
    let w: int = if j > 0 {
        1
    } else {
        0
    };
    let pos = b + lj + w;
    lemma_entry_layout(s, b, es, j);
    lemma_entries_ok(es, j);
    let key = es[j].0;
    let v = es[j].1;
    let tk = unit_text(key);
    let tv = value_text(v);
    let kstart = pos + w;
    let colon = kstart + tk.len();
    let e = colon + 2 + tv.len();
    lemma_entries_prefix(es, j + 1);
    assert(e < s.len());
    lemma_ascii_bareword(s[e]);
    lemma_ascii_bareword(':');
    lemma_read_unit(s, pos, w, key);
    lemma_skip_to(s, colon, 0);
    lemma_read_value(s, colon + 1, 1, v);
    assert(s[kstart] == tk[0]);
    assert(es.take(j).push((key, v)) =~= es.take(j + 1));
    assert(skip_white_space(s, e) == e);
    if j + 1 < n {
        lemma_read_entries(s, b, es, j + 1);
    }
}

} // verus!
