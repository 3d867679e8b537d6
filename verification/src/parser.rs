//! The tree builder: consumes the token sequence positionally and
//! builds a single rooted value tree by recursive descent, or fails
//! with a `SyntaxError`.

use vstd::prelude::*;

use crate::errors::JsonError;
use crate::errors::LexicalError;
use crate::errors::SyntaxError;
use crate::lexer::is_alnum_char;
use crate::lexer::is_digit_char;
use crate::lexer::lemma_alnum_run_stops;
use crate::lexer::lemma_close_quote_finds;
use crate::lexer::lemma_digit_run_stops;
use crate::lexer::spec_digit_run_end;
use crate::lexer::spec_number_text;
use crate::lexer::spec_prepend;
use crate::lexer::spec_step;
use crate::lexer::spec_tokenize;
use crate::lexer::NumV;
use crate::lexer::Token;
use crate::lexer::TokenKind;
use crate::lexer::TokenKindV;
use crate::lexer::TokenV;

verus! {

broadcast use vstd::std_specs::vec::axiom_vec_index_decreases;

/// One JSON datum after parsing.  An object keeps its members as a
/// vector of key-value pairs with pairwise distinct keys; a duplicate
/// key written later in the text overwrites the earlier value.
#[derive(Debug, PartialEq)]
pub enum JsonObject {
    Null,
    Bool(bool),
    String(String),
    Number(crate::lexer::JsonNumber),
    Array(Vec<JsonObject>),
    Object(Vec<(String, JsonObject)>),
}

/// View of `JsonObject` over character sequences.
pub ghost enum JsonValue {
    Null,
    Bool(bool),
    String(Seq<char>),
    Number(NumV),
    Array(Seq<JsonValue>),
    Object(Seq<(Seq<char>, JsonValue)>),
}

/// The view of a whole value tree.
pub open spec fn view_value(v: JsonObject) -> JsonValue
    decreases v,
{
    match v {
        JsonObject::Null => JsonValue::Null,
        JsonObject::Bool(b) => JsonValue::Bool(b),
        JsonObject::String(s) => JsonValue::String(s@),
        JsonObject::Number(n) => JsonValue::Number(n@),
        JsonObject::Array(items) => JsonValue::Array(view_list(items@)),
        JsonObject::Object(entries) => JsonValue::Object(view_entries(entries@)),
    }
}

/// The views of the elements of an array, in order.
pub open spec fn view_list(l: Seq<JsonObject>) -> Seq<JsonValue>
    decreases l,
{
    if l.len() == 0 {
        Seq::empty()
    } else {
        seq![view_value(l[0])] + view_list(l.subrange(1, l.len() as int))
    }
}

/// The views of the members of an object, in order.
pub open spec fn view_entries(l: Seq<(String, JsonObject)>) -> Seq<(Seq<char>, JsonValue)>
    decreases l,
    via view_entries_decreases
{
    if l.len() == 0 {
        Seq::empty()
    } else {
        seq![(l[0].0@, view_value(l[0].1))] + view_entries(l.subrange(1, l.len() as int))
    }
}

#[via_fn]
proof fn view_entries_decreases(l: Seq<(String, JsonObject)>) {
    if l.len() != 0 {
        assert(decreases_to!(l => l[0]));
    }
}

impl DeepView for JsonObject {
    type V = JsonValue;

    open spec fn deep_view(&self) -> JsonValue {
        view_value(*self)
    }
}

/// Element access for `view_list`.
pub proof fn lemma_view_list_index(l: Seq<JsonObject>)
    ensures
        view_list(l).len() == l.len(),
        forall|i: int| 0 <= i < l.len() ==> view_list(l)[i] == view_value(l[i]),
    decreases l,
{
    if l.len() != 0 {
        lemma_view_list_index(l.subrange(1, l.len() as int));
    }
}

/// Element access for `view_entries`.
pub proof fn lemma_view_entries_index(l: Seq<(String, JsonObject)>)
    ensures
        view_entries(l).len() == l.len(),
        forall|i: int| 0 <= i < l.len() ==> view_entries(l)[i] == (l[i].0@, view_value(l[i].1)),
    decreases l,
{
    if l.len() != 0 {
        lemma_view_entries_index(l.subrange(1, l.len() as int));
    }
}

// ---------------------------------------------------------------------
// Object members: insertion with "last write wins"
// ---------------------------------------------------------------------

/// Index of the first member with the given key at or after `i`, or
/// the number of members if there is none.
pub open spec fn spec_find_key(entries: Seq<(Seq<char>, JsonValue)>, key: Seq<char>, i: int) -> int
    decreases entries.len() - i,
{
    if i < 0 || i >= entries.len() {
        entries.len() as int
    } else if entries[i].0 == key {
        i
    } else {
        spec_find_key(entries, key, i + 1)
    }
}

/// Inserting a member: a duplicate key overwrites the value in place,
/// a new key is appended, so keys stay pairwise distinct.
pub open spec fn spec_upsert(
    entries: Seq<(Seq<char>, JsonValue)>,
    key: Seq<char>,
    value: JsonValue,
) -> Seq<(Seq<char>, JsonValue)> {
    let j = spec_find_key(entries, key, 0);
    if j < entries.len() {
        entries.update(j, (key, value))
    } else {
        entries.push((key, value))
    }
}

/// `spec_find_key` passes over any range without the key.
pub proof fn lemma_find_key_range(
    entries: Seq<(Seq<char>, JsonValue)>,
    key: Seq<char>,
    a: int,
    b: int,
)
    requires
        0 <= a <= b <= entries.len(),
        forall|k: int| a <= k < b ==> entries[k].0 != key,
    ensures
        spec_find_key(entries, key, a) == spec_find_key(entries, key, b),
    decreases b - a,
{
    if a < b {
        lemma_find_key_range(entries, key, a + 1, b);
    }
}

// ---------------------------------------------------------------------
// The grammar, as recursive spec functions over the token sequence
// ---------------------------------------------------------------------

/// The value beginning at token `i`, with the position just past it:
/// the dispatch rule of the recursive descent.
pub open spec fn spec_parse_value(ts: Seq<TokenV>, i: int) -> Result<(JsonValue, int), SyntaxError>
    decreases ts.len() - i, 1int,
{
    if i < 0 || i >= ts.len() {
        Result::Err(SyntaxError::UnexpectedEndOfInput)
    } else {
        match ts[i].kind {
            TokenKindV::String(sv) => Result::Ok((JsonValue::String(sv), i + 1)),
            TokenKindV::Number(nv) => Result::Ok((JsonValue::Number(nv), i + 1)),
            TokenKindV::True => Result::Ok((JsonValue::Bool(true), i + 1)),
            TokenKindV::False => Result::Ok((JsonValue::Bool(false), i + 1)),
            TokenKindV::Null => Result::Ok((JsonValue::Null, i + 1)),
            TokenKindV::LeftBrace => spec_parse_members(ts, i + 1, Seq::empty(), true),
            TokenKindV::LeftBracket => spec_parse_elems(ts, i + 1, Seq::empty(), true),
            TokenKindV::Eof => Result::Err(SyntaxError::UnexpectedEndOfInput),
            _ => Result::Err(SyntaxError::StrayToken),
        }
    }
}

/// The members of an object from token `i` on, after the opening brace
/// or a comma; `acc` holds the members read so far.  A closing brace
/// is accepted only at the very start (`allow_close`) or after a
/// member, never after a comma: trailing commas are rejected.
pub open spec fn spec_parse_members(
    ts: Seq<TokenV>,
    i: int,
    acc: Seq<(Seq<char>, JsonValue)>,
    allow_close: bool,
) -> Result<(JsonValue, int), SyntaxError>
    decreases ts.len() - i, 2int,
{
    if i < 0 || i >= ts.len() {
        Result::Err(SyntaxError::UnexpectedEndOfInput)
    } else {
        match ts[i].kind {
            TokenKindV::RightBrace => if allow_close {
                Result::Ok((JsonValue::Object(acc), i + 1))
            } else {
                Result::Err(SyntaxError::ExpectedStringKey)
            },
            TokenKindV::String(key) => if i + 1 >= ts.len() {
                Result::Err(SyntaxError::UnexpectedEndOfInput)
            } else if !(ts[i + 1].kind is Colon) {
                Result::Err(SyntaxError::ExpectedColon)
            } else {
                match spec_parse_value(ts, i + 2) {
                    Result::Err(e) => Result::Err(e),
                    Result::Ok((value, j)) => {
                        let acc2 = spec_upsert(acc, key, value);
                        if j >= ts.len() {
                            Result::Err(SyntaxError::UnexpectedEndOfInput)
                        } else if ts[j].kind is Comma {
                            if i < j {
                                spec_parse_members(ts, j + 1, acc2, false)
                            } else {
                                Result::Err(SyntaxError::UnexpectedEndOfInput)
                            }
                        } else if ts[j].kind is RightBrace {
                            Result::Ok((JsonValue::Object(acc2), j + 1))
                        } else {
                            Result::Err(SyntaxError::ExpectedCommaOrClose)
                        }
                    },
                }
            },
            _ => Result::Err(SyntaxError::ExpectedStringKey),
        }
    }
}

/// The elements of an array from token `i` on, after the opening
/// bracket or a comma; `acc` holds the elements read so far.  A closing
/// bracket is accepted only at the very start or after an element, so a
/// trailing comma fails on the dispatch rule.
pub open spec fn spec_parse_elems(
    ts: Seq<TokenV>,
    i: int,
    acc: Seq<JsonValue>,
    allow_close: bool,
) -> Result<(JsonValue, int), SyntaxError>
    decreases ts.len() - i, 2int,
{
    if i < 0 || i >= ts.len() {
        Result::Err(SyntaxError::UnexpectedEndOfInput)
    } else if ts[i].kind is RightBracket && allow_close {
        Result::Ok((JsonValue::Array(acc), i + 1))
    } else {
        match spec_parse_value(ts, i) {
            Result::Err(e) => Result::Err(e),
            Result::Ok((value, j)) => {
                let acc2 = acc.push(value);
                if j >= ts.len() {
                    Result::Err(SyntaxError::UnexpectedEndOfInput)
                } else if ts[j].kind is Comma {
                    if i < j {
                        spec_parse_elems(ts, j + 1, acc2, false)
                    } else {
                        Result::Err(SyntaxError::UnexpectedEndOfInput)
                    }
                } else if ts[j].kind is RightBracket {
                    Result::Ok((JsonValue::Array(acc2), j + 1))
                } else {
                    Result::Err(SyntaxError::ExpectedCommaOrClose)
                }
            },
        }
    }
}

/// The whole document: one value from position 0, followed by the
/// end-of-input token.
pub open spec fn spec_parse_document(ts: Seq<TokenV>) -> Result<JsonValue, SyntaxError> {
    match spec_parse_value(ts, 0) {
        Result::Err(e) => Result::Err(e),
        Result::Ok((value, j)) => if j >= ts.len() {
            Result::Err(SyntaxError::UnexpectedEndOfInput)
        } else if ts[j].kind is Eof {
            Result::Ok(value)
        } else {
            Result::Err(SyntaxError::StrayToken)
        },
    }
}

// ---------------------------------------------------------------------
// Completeness: a value written out as tokens parses back to itself
// ---------------------------------------------------------------------

/// No two members share a key.
pub open spec fn keys_distinct(entries: Seq<(Seq<char>, JsonValue)>) -> bool {
    forall|a: int, b: int| 0 <= a < b < entries.len() ==> entries[a].0 != entries[b].0
}

/// Well-formedness of a value tree: every object's keys are pairwise
/// distinct, at every nesting depth.
pub open spec fn value_wf(v: JsonValue) -> bool
    decreases v,
{
    match v {
        JsonValue::Array(items) => list_wf(items),
        JsonValue::Object(entries) => keys_distinct(entries) && entries_wf(entries),
        _ => true,
    }
}

/// Well-formedness of every element.
pub open spec fn list_wf(items: Seq<JsonValue>) -> bool
    decreases items,
{
    items.len() == 0 || (value_wf(items[0]) && list_wf(items.subrange(1, items.len() as int)))
}

/// Well-formedness of every member's value.
pub open spec fn entries_wf(entries: Seq<(Seq<char>, JsonValue)>) -> bool
    decreases entries,
    via entries_wf_decreases
{
    entries.len() == 0 || (value_wf(entries[0].1) && entries_wf(
        entries.subrange(1, entries.len() as int),
    ))
}

#[via_fn]
proof fn entries_wf_decreases(entries: Seq<(Seq<char>, JsonValue)>) {
    if entries.len() != 0 {
        assert(decreases_to!(entries => entries[0]));
    }
}

/// The token kinds that spell a value out: each container with its
/// braces, commas and colons, each leaf as its one token.
pub open spec fn render_kinds(v: JsonValue) -> Seq<TokenKindV>
    decreases v, 1int,
{
    match v {
        JsonValue::Null => seq![TokenKindV::Null],
        JsonValue::Bool(b) => if b {
            seq![TokenKindV::True]
        } else {
            seq![TokenKindV::False]
        },
        JsonValue::String(s) => seq![TokenKindV::String(s)],
        JsonValue::Number(n) => seq![TokenKindV::Number(n)],
        JsonValue::Array(items) => if items.len() == 0 {
            seq![TokenKindV::LeftBracket, TokenKindV::RightBracket]
        } else {
            seq![TokenKindV::LeftBracket] + render_kinds(items[0]) + render_elems_tail(
                items.subrange(1, items.len() as int),
            )
        },
        JsonValue::Object(entries) => if entries.len() == 0 {
            seq![TokenKindV::LeftBrace, TokenKindV::RightBrace]
        } else {
            seq![TokenKindV::LeftBrace] + render_member(entries[0]) + render_members_tail(
                entries.subrange(1, entries.len() as int),
            )
        },
    }
}

/// One member: its key, a colon, its value.
pub open spec fn render_member(e: (Seq<char>, JsonValue)) -> Seq<TokenKindV>
    decreases e, 0int,
{
    seq![TokenKindV::String(e.0), TokenKindV::Colon] + render_kinds(e.1)
}

/// The elements still owed after a parsed element: either the closing
/// bracket, or a comma and the next element and the rest.
pub open spec fn render_elems_tail(items: Seq<JsonValue>) -> Seq<TokenKindV>
    decreases items, 2int,
{
    if items.len() == 0 {
        seq![TokenKindV::RightBracket]
    } else {
        seq![TokenKindV::Comma] + render_kinds(items[0]) + render_elems_tail(
            items.subrange(1, items.len() as int),
        )
    }
}

/// The members still owed after a parsed member, as for elements.
pub open spec fn render_members_tail(entries: Seq<(Seq<char>, JsonValue)>) -> Seq<TokenKindV>
    decreases entries, 2int,
    via render_members_tail_decreases
{
    if entries.len() == 0 {
        seq![TokenKindV::RightBrace]
    } else {
        seq![TokenKindV::Comma] + render_member(entries[0]) + render_members_tail(
            entries.subrange(1, entries.len() as int),
        )
    }
}

#[via_fn]
proof fn render_members_tail_decreases(entries: Seq<(Seq<char>, JsonValue)>) {
    if entries.len() != 0 {
        assert(decreases_to!(entries => entries[0]));
    }
}

/// The token kinds `ks` stand at position `i` of `ts`.
pub open spec fn kinds_at(ts: Seq<TokenV>, i: int, ks: Seq<TokenKindV>) -> bool {
    &&& 0 <= i
    &&& i + ks.len() <= ts.len()
    &&& forall|k: int| 0 <= k < ks.len() ==> ts[i + k].kind == ks[k]
}

/// A rendered value begins with a token that can begin a value.
pub proof fn lemma_render_first(v: JsonValue)
    ensures
        render_kinds(v).len() > 0,
        !(render_kinds(v)[0] is RightBracket),
        !(render_kinds(v)[0] is RightBrace),
        !(render_kinds(v)[0] is Comma),
        !(render_kinds(v)[0] is Colon),
        !(render_kinds(v)[0] is Eof),
{
    match v {
        JsonValue::Null => {},
        JsonValue::Bool(_) => {},
        JsonValue::String(_) => {},
        JsonValue::Number(_) => {},
        JsonValue::Array(_) => {},
        JsonValue::Object(_) => {},
    }
}

/// Completeness of the dispatch rule: a well-formed value whose token
/// spelling stands at `i` is parsed back to exactly itself, consuming
/// exactly its spelling.
pub proof fn lemma_parse_value_complete(ts: Seq<TokenV>, i: int, v: JsonValue)
    requires
        value_wf(v),
        kinds_at(ts, i, render_kinds(v)),
    ensures
        spec_parse_value(ts, i) == Result::Ok::<(JsonValue, int), SyntaxError>(
            (v, i + render_kinds(v).len()),
        ),
    decreases v,
{
    assert(ts[i + 0].kind == render_kinds(v)[0]);
    match v {
        JsonValue::Null => {},
        JsonValue::Bool(_) => {},
        JsonValue::String(_) => {},
        JsonValue::Number(_) => {},
        JsonValue::Array(items) => {
            if items.len() == 0 {
                assert(ts[i + 1].kind == render_kinds(v)[1]);
                assert(Seq::<JsonValue>::empty() =~= items);
            } else {
                let rest2 = items.subrange(1, items.len() as int);
                let ks0 = render_kinds(items[0]);
                let tail = render_elems_tail(rest2);
                assert(kinds_at(ts, i + 1, ks0 + tail)) by {
                    assert forall|k: int| 0 <= k < (ks0 + tail).len() implies ts[i + 1 + k].kind
                        == (ks0 + tail)[k] by {
                        assert(ts[i + (k + 1)].kind == render_kinds(v)[k + 1]);
                    };
                };
                lemma_parse_elems_run(ts, i + 1, Seq::empty(), items);
                assert(Seq::<JsonValue>::empty() + items =~= items);
            }
        },
        JsonValue::Object(entries) => {
            if entries.len() == 0 {
                assert(ts[i + 1].kind == render_kinds(v)[1]);
                assert(Seq::<(Seq<char>, JsonValue)>::empty() =~= entries);
            } else {
                let rest2 = entries.subrange(1, entries.len() as int);
                let mem0 = render_member(entries[0]);
                let tail = render_members_tail(rest2);
                assert(kinds_at(ts, i + 1, mem0 + tail)) by {
                    assert forall|k: int| 0 <= k < (mem0 + tail).len() implies ts[i + 1 + k].kind
                        == (mem0 + tail)[k] by {
                        assert(ts[i + (k + 1)].kind == render_kinds(v)[k + 1]);
                    };
                };
                assert(Seq::<(Seq<char>, JsonValue)>::empty() + entries =~= entries);
                lemma_parse_members_run(ts, i + 1, Seq::empty(), entries);
            }
        },
    }
}

/// Completeness of the element loop: with the spelling of the elements
/// still owed standing at `i`, the loop ends on the closing bracket
/// with all of them appended, whatever the members read so far.
pub proof fn lemma_parse_elems_run(ts: Seq<TokenV>, i: int, acc: Seq<JsonValue>, rest: Seq<
    JsonValue,
>)
    requires
        rest.len() > 0,
        list_wf(rest),
        kinds_at(
            ts,
            i,
            render_kinds(rest[0]) + render_elems_tail(rest.subrange(1, rest.len() as int)),
        ),
    ensures
        spec_parse_elems(ts, i, acc, true) == Result::Ok::<(JsonValue, int), SyntaxError>(
            (
            JsonValue::Array(acc + rest),
            i + (render_kinds(rest[0]) + render_elems_tail(
                rest.subrange(1, rest.len() as int),
            )).len(),
            ),
        ),
        spec_parse_elems(ts, i, acc, false) == Result::Ok::<(JsonValue, int), SyntaxError>(
            (
            JsonValue::Array(acc + rest),
            i + (render_kinds(rest[0]) + render_elems_tail(
                rest.subrange(1, rest.len() as int),
            )).len(),
            ),
        ),
    decreases rest,
{
    let v0 = rest[0];
    let rest2 = rest.subrange(1, rest.len() as int);
    let ks0 = render_kinds(v0);
    let tail = render_elems_tail(rest2);
    lemma_render_first(v0);
    assert(kinds_at(ts, i, ks0)) by {
        assert forall|k: int| 0 <= k < ks0.len() implies ts[i + k].kind == ks0[k] by {
            assert(ts[i + k].kind == (ks0 + tail)[k]);
        };
    };
    assert(value_wf(v0));
    lemma_parse_value_complete(ts, i, v0);
    let j = i + ks0.len();
    assert(ts[i + 0].kind == (ks0 + tail)[0]);
    assert(ts[j].kind == (ks0 + tail)[ks0.len() as int]);
    let acc2 = acc.push(v0);
    if rest2.len() == 0 {
        assert(acc2 =~= acc + rest);
    } else {
        let ks1 = render_kinds(rest2[0]);
        let tail2 = render_elems_tail(rest2.subrange(1, rest2.len() as int));
        assert(ts[j].kind is Comma);
        assert(kinds_at(ts, j + 1, ks1 + tail2)) by {
            assert forall|k: int| 0 <= k < (ks1 + tail2).len() implies ts[j + 1 + k].kind == (ks1
                + tail2)[k] by {
                assert(ts[i + (ks0.len() + 1 + k)].kind == (ks0 + tail)[ks0.len() + 1 + k]);
            };
        };
        assert(list_wf(rest2));
        lemma_parse_elems_run(ts, j + 1, acc2, rest2);
        assert(acc2 + rest2 =~= acc + rest);
    }
}

/// Completeness of the member loop: with the spelling of the members
/// still owed standing at `i`, their keys distinct among themselves
/// and from the members read so far, the loop ends on the closing
/// brace with all of them appended.
pub proof fn lemma_parse_members_run(
    ts: Seq<TokenV>,
    i: int,
    acc: Seq<(Seq<char>, JsonValue)>,
    rest: Seq<(Seq<char>, JsonValue)>,
)
    requires
        rest.len() > 0,
        entries_wf(rest),
        keys_distinct(acc + rest),
        kinds_at(
            ts,
            i,
            render_member(rest[0]) + render_members_tail(rest.subrange(1, rest.len() as int)),
        ),
    ensures
        spec_parse_members(ts, i, acc, true) == Result::Ok::<(JsonValue, int), SyntaxError>(
            (
            JsonValue::Object(acc + rest),
            i + (render_member(rest[0]) + render_members_tail(
                rest.subrange(1, rest.len() as int),
            )).len(),
            ),
        ),
        spec_parse_members(ts, i, acc, false) == Result::Ok::<(JsonValue, int), SyntaxError>(
            (
            JsonValue::Object(acc + rest),
            i + (render_member(rest[0]) + render_members_tail(
                rest.subrange(1, rest.len() as int),
            )).len(),
            ),
        ),
    decreases rest,
{
    let e0 = rest[0];
    let rest2 = rest.subrange(1, rest.len() as int);
    let mem0 = render_member(e0);
    let tail = render_members_tail(rest2);
    let ksv = render_kinds(e0.1);
    assert(ts[i + 0].kind == (mem0 + tail)[0]);
    assert(ts[i + 1].kind == (mem0 + tail)[1]);
    assert(kinds_at(ts, i + 2, ksv)) by {
        assert forall|k: int| 0 <= k < ksv.len() implies ts[i + 2 + k].kind == ksv[k] by {
            assert(ts[i + (2 + k)].kind == (mem0 + tail)[2 + k]);
        };
    };
    assert(value_wf(e0.1));
    lemma_parse_value_complete(ts, i + 2, e0.1);
    let j = i + 2 + ksv.len();
    assert(ts[j].kind == (mem0 + tail)[mem0.len() as int]);
    assert forall|m: int| 0 <= m < acc.len() implies acc[m].0 != e0.0 by {
        assert((acc + rest)[m] == acc[m]);
        assert((acc + rest)[acc.len() as int] == rest[0]);
    };
    lemma_find_key_range(acc, e0.0, 0, acc.len() as int);
    assert(spec_find_key(acc, e0.0, 0) == acc.len());
    let acc2 = spec_upsert(acc, e0.0, e0.1);
    assert(acc2 == acc.push((e0.0, e0.1)));
    assert(acc2 =~= acc.push(e0));
    if rest2.len() == 0 {
        assert(acc2 =~= acc + rest);
    } else {
        let mem1 = render_member(rest2[0]);
        let tail2 = render_members_tail(rest2.subrange(1, rest2.len() as int));
        assert(ts[j].kind is Comma);
        assert(kinds_at(ts, j + 1, mem1 + tail2)) by {
            assert forall|k: int| 0 <= k < (mem1 + tail2).len() implies ts[j + 1 + k].kind == (
            mem1 + tail2)[k] by {
                assert(ts[i + (mem0.len() + 1 + k)].kind == (mem0 + tail)[mem0.len() + 1 + k]);
            };
        };
        assert(entries_wf(rest2));
        assert(acc2 + rest2 =~= acc + rest);
        assert(keys_distinct(acc2 + rest2));
        lemma_parse_members_run(ts, j + 1, acc2, rest2);
    }
}

/// `list_wf`, element by element.
pub proof fn lemma_list_wf_index(items: Seq<JsonValue>)
    ensures
        list_wf(items) <==> (forall|k: int| 0 <= k < items.len() ==> value_wf(items[k])),
    decreases items,
{
    if items.len() > 0 {
        let rest = items.subrange(1, items.len() as int);
        lemma_list_wf_index(rest);
        if list_wf(items) {
            assert forall|k: int| 0 <= k < items.len() implies value_wf(items[k]) by {
                if k > 0 {
                    assert(value_wf(rest[k - 1]));
                }
            };
        }
        if forall|k: int| 0 <= k < items.len() ==> value_wf(items[k]) {
            assert forall|k: int| 0 <= k < rest.len() implies value_wf(rest[k]) by {
                assert(value_wf(items[k + 1]));
            };
        }
    }
}

/// `entries_wf`, member by member.
pub proof fn lemma_entries_wf_index(entries: Seq<(Seq<char>, JsonValue)>)
    ensures
        entries_wf(entries) <==> (forall|k: int|
            0 <= k < entries.len() ==> value_wf(entries[k].1)),
    decreases entries,
{
    if entries.len() > 0 {
        let rest = entries.subrange(1, entries.len() as int);
        lemma_entries_wf_index(rest);
        if entries_wf(entries) {
            assert forall|k: int| 0 <= k < entries.len() implies value_wf(entries[k].1) by {
                if k > 0 {
                    assert(value_wf(rest[k - 1].1));
                }
            };
        }
        if forall|k: int| 0 <= k < entries.len() ==> value_wf(entries[k].1) {
            assert forall|k: int| 0 <= k < rest.len() implies value_wf(rest[k].1) by {
                assert(value_wf(entries[k + 1].1));
            };
        }
    }
}

/// What `spec_find_key` finds: the first member with the key, if any.
pub proof fn lemma_find_key_props(entries: Seq<(Seq<char>, JsonValue)>, key: Seq<char>, i: int)
    requires
        0 <= i <= entries.len(),
    ensures
        i <= spec_find_key(entries, key, i) <= entries.len(),
        spec_find_key(entries, key, i) < entries.len() ==> entries[spec_find_key(
            entries,
            key,
            i,
        )].0 == key,
        forall|k: int| i <= k < spec_find_key(entries, key, i) ==> entries[k].0 != key,
    decreases entries.len() - i,
{
    if i < entries.len() && entries[i].0 != key {
        lemma_find_key_props(entries, key, i + 1);
    }
}

/// Inserting a well-formed value under any key keeps the object well
/// formed: keys stay pairwise distinct and every value stays well
/// formed.
pub proof fn lemma_upsert_wf(entries: Seq<(Seq<char>, JsonValue)>, key: Seq<char>, value: JsonValue)
    requires
        keys_distinct(entries),
        entries_wf(entries),
        value_wf(value),
    ensures
        keys_distinct(spec_upsert(entries, key, value)),
        entries_wf(spec_upsert(entries, key, value)),
        spec_upsert(entries, key, value).len() >= entries.len(),
{
    lemma_entries_wf_index(entries);
    lemma_entries_wf_index(spec_upsert(entries, key, value));
    lemma_find_key_props(entries, key, 0);
}

/// Any well-formed value tree, written out as its token sequence with
/// the end-of-input token after it, is accepted by the tree builder
/// and rebuilt exactly: the structure of the result mirrors the
/// document's nesting, member for member and element for element.
pub proof fn lemma_parse_round_trip(ts: Seq<TokenV>, v: JsonValue)
    requires
        value_wf(v),
        ts.len() == render_kinds(v).len() + 1,
        kinds_at(ts, 0, render_kinds(v)),
        ts[ts.len() - 1].kind is Eof,
    ensures
        spec_parse_document(ts) == Result::Ok::<JsonValue, SyntaxError>(v),
{
    lemma_parse_value_complete(ts, 0, v);
}

// ---------------------------------------------------------------------
// The full round trip: a value written out as text scans and parses
// back to itself
// ---------------------------------------------------------------------

/// A character sequence without quotes, so the scanner reads it back
/// verbatim as one string body.
pub open spec fn no_quote(s: Seq<char>) -> bool {
    forall|k: int| 0 <= k < s.len() ==> s[k] != '"'
}

/// Number components that denote a decimal number: at least one
/// integer digit, digits only in both parts.
pub open spec fn num_wf(n: NumV) -> bool {
    &&& n.int_part.len() > 0
    &&& forall|k: int| 0 <= k < n.int_part.len() ==> is_digit_char(n.int_part[k])
    &&& forall|k: int| 0 <= k < n.frac_part.len() ==> is_digit_char(n.frac_part[k])
}

/// A value whose text form the scanner reads back exactly: strings and
/// keys hold no quote, numbers are decimal, at every depth.
pub open spec fn text_wf(v: JsonValue) -> bool
    decreases v,
{
    match v {
        JsonValue::Null => true,
        JsonValue::Bool(_) => true,
        JsonValue::String(s) => no_quote(s),
        JsonValue::Number(n) => num_wf(n),
        JsonValue::Array(items) => list_text_wf(items),
        JsonValue::Object(entries) => entries_text_wf(entries),
    }
}

/// `text_wf` of every element.
pub open spec fn list_text_wf(items: Seq<JsonValue>) -> bool
    decreases items,
{
    items.len() == 0 || (text_wf(items[0]) && list_text_wf(items.subrange(1, items.len() as int)))
}

/// `text_wf` of every member, and no quote in any key.
pub open spec fn entries_text_wf(entries: Seq<(Seq<char>, JsonValue)>) -> bool
    decreases entries,
    via entries_text_wf_decreases
{
    entries.len() == 0 || (no_quote(entries[0].0) && text_wf(entries[0].1) && entries_text_wf(
        entries.subrange(1, entries.len() as int),
    ))
}

#[via_fn]
proof fn entries_text_wf_decreases(entries: Seq<(Seq<char>, JsonValue)>) {
    if entries.len() != 0 {
        assert(decreases_to!(entries => entries[0]));
    }
}

/// The characters that spell a value out.
pub open spec fn render_text(v: JsonValue) -> Seq<char>
    decreases v, 1int,
{
    match v {
        JsonValue::Null => seq!['n', 'u', 'l', 'l'],
        JsonValue::Bool(b) => if b {
            seq!['t', 'r', 'u', 'e']
        } else {
            seq!['f', 'a', 'l', 's', 'e']
        },
        JsonValue::String(s) => seq!['"'] + s + seq!['"'],
        JsonValue::Number(n) => spec_number_text(n),
        JsonValue::Array(items) => if items.len() == 0 {
            seq!['[', ']']
        } else {
            seq!['['] + render_text(items[0]) + render_text_elems_tail(
                items.subrange(1, items.len() as int),
            )
        },
        JsonValue::Object(entries) => if entries.len() == 0 {
            seq!['{', '}']
        } else {
            seq!['{'] + render_text_member(entries[0]) + render_text_members_tail(
                entries.subrange(1, entries.len() as int),
            )
        },
    }
}

/// One member's characters: the quoted key, a colon, the value.
pub open spec fn render_text_member(e: (Seq<char>, JsonValue)) -> Seq<char>
    decreases e, 0int,
{
    seq!['"'] + e.0 + seq!['"', ':'] + render_text(e.1)
}

/// The characters of the elements still owed after one element.
pub open spec fn render_text_elems_tail(items: Seq<JsonValue>) -> Seq<char>
    decreases items, 2int,
{
    if items.len() == 0 {
        seq![']']
    } else {
        seq![','] + render_text(items[0]) + render_text_elems_tail(
            items.subrange(1, items.len() as int),
        )
    }
}

/// The characters of the members still owed after one member.
pub open spec fn render_text_members_tail(entries: Seq<(Seq<char>, JsonValue)>) -> Seq<char>
    decreases entries, 2int,
    via render_text_members_tail_decreases
{
    if entries.len() == 0 {
        seq!['}']
    } else {
        seq![','] + render_text_member(entries[0]) + render_text_members_tail(
            entries.subrange(1, entries.len() as int),
        )
    }
}

#[via_fn]
proof fn render_text_members_tail_decreases(entries: Seq<(Seq<char>, JsonValue)>) {
    if entries.len() != 0 {
        assert(decreases_to!(entries => entries[0]));
    }
}

/// The tokens the scanner yields for a rendered value, lexemes and all.
pub open spec fn render_tokens(v: JsonValue) -> Seq<TokenV>
    decreases v, 1int,
{
    match v {
        JsonValue::Null => seq![
            TokenV { kind: TokenKindV::Null, lexeme: seq!['n', 'u', 'l', 'l'] },
        ],
        JsonValue::Bool(b) => if b {
            seq![TokenV { kind: TokenKindV::True, lexeme: seq!['t', 'r', 'u', 'e'] }]
        } else {
            seq![TokenV { kind: TokenKindV::False, lexeme: seq!['f', 'a', 'l', 's', 'e'] }]
        },
        JsonValue::String(s) => seq![TokenV { kind: TokenKindV::String(s), lexeme: s }],
        JsonValue::Number(n) => seq![
            TokenV { kind: TokenKindV::Number(n), lexeme: spec_number_text(n) },
        ],
        JsonValue::Array(items) => if items.len() == 0 {
            seq![
                TokenV { kind: TokenKindV::LeftBracket, lexeme: seq!['['] },
                TokenV { kind: TokenKindV::RightBracket, lexeme: seq![']'] },
            ]
        } else {
            seq![TokenV { kind: TokenKindV::LeftBracket, lexeme: seq!['['] }] + render_tokens(
                items[0],
            ) + render_tokens_elems_tail(items.subrange(1, items.len() as int))
        },
        JsonValue::Object(entries) => if entries.len() == 0 {
            seq![
                TokenV { kind: TokenKindV::LeftBrace, lexeme: seq!['{'] },
                TokenV { kind: TokenKindV::RightBrace, lexeme: seq!['}'] },
            ]
        } else {
            seq![TokenV { kind: TokenKindV::LeftBrace, lexeme: seq!['{'] }] + render_tokens_member(
                entries[0],
            ) + render_tokens_members_tail(entries.subrange(1, entries.len() as int))
        },
    }
}

/// One member's tokens: its key, a colon, its value.
pub open spec fn render_tokens_member(e: (Seq<char>, JsonValue)) -> Seq<TokenV>
    decreases e, 0int,
{
    seq![
        TokenV { kind: TokenKindV::String(e.0), lexeme: e.0 },
        TokenV { kind: TokenKindV::Colon, lexeme: seq![':'] },
    ] + render_tokens(e.1)
}

/// The tokens of the elements still owed after one element.
pub open spec fn render_tokens_elems_tail(items: Seq<JsonValue>) -> Seq<TokenV>
    decreases items, 2int,
{
    if items.len() == 0 {
        seq![TokenV { kind: TokenKindV::RightBracket, lexeme: seq![']'] }]
    } else {
        seq![TokenV { kind: TokenKindV::Comma, lexeme: seq![','] }] + render_tokens(items[0])
            + render_tokens_elems_tail(items.subrange(1, items.len() as int))
    }
}

/// The tokens of the members still owed after one member.
pub open spec fn render_tokens_members_tail(entries: Seq<(Seq<char>, JsonValue)>) -> Seq<TokenV>
    decreases entries, 2int,
    via render_tokens_members_tail_decreases
{
    if entries.len() == 0 {
        seq![TokenV { kind: TokenKindV::RightBrace, lexeme: seq!['}'] }]
    } else {
        seq![TokenV { kind: TokenKindV::Comma, lexeme: seq![','] }] + render_tokens_member(
            entries[0],
        ) + render_tokens_members_tail(entries.subrange(1, entries.len() as int))
    }
}

#[via_fn]
proof fn render_tokens_members_tail_decreases(entries: Seq<(Seq<char>, JsonValue)>) {
    if entries.len() != 0 {
        assert(decreases_to!(entries => entries[0]));
    }
}

/// The tokens of a rendered value carry exactly its rendered kinds.
pub proof fn lemma_render_tokens_kinds(v: JsonValue)
    ensures
        render_tokens(v).len() == render_kinds(v).len(),
        forall|k: int|
            0 <= k < render_tokens(v).len() ==> render_tokens(v)[k].kind == render_kinds(v)[k],
    decreases v, 1int,
{
    match v {
        JsonValue::Null => {},
        JsonValue::Bool(_) => {},
        JsonValue::String(_) => {},
        JsonValue::Number(_) => {},
        JsonValue::Array(items) => {
            if items.len() > 0 {
                let rest2 = items.subrange(1, items.len() as int);
                lemma_render_tokens_kinds(items[0]);
                lemma_render_tokens_kinds_elems(rest2);
                let a = render_tokens(items[0]);
                let b = render_tokens_elems_tail(rest2);
                let a2 = render_kinds(items[0]);
                let b2 = render_elems_tail(rest2);
                assert forall|k: int| 0 <= k < render_tokens(v).len() implies render_tokens(
                    v,
                )[k].kind == render_kinds(v)[k] by {
                    if 1 <= k < 1 + a.len() {
                        assert(render_tokens(v)[k] == a[k - 1]);
                        assert(render_kinds(v)[k] == a2[k - 1]);
                    } else if k >= 1 + a.len() {
                        assert(render_tokens(v)[k] == b[k - 1 - a.len()]);
                        assert(render_kinds(v)[k] == b2[k - 1 - a.len()]);
                    }
                };
            }
        },
        JsonValue::Object(entries) => {
            if entries.len() > 0 {
                let rest2 = entries.subrange(1, entries.len() as int);
                lemma_render_tokens_kinds_member(entries[0]);
                lemma_render_tokens_kinds_members(rest2);
                let a = render_tokens_member(entries[0]);
                let b = render_tokens_members_tail(rest2);
                let a2 = render_member(entries[0]);
                let b2 = render_members_tail(rest2);
                assert forall|k: int| 0 <= k < render_tokens(v).len() implies render_tokens(
                    v,
                )[k].kind == render_kinds(v)[k] by {
                    if 1 <= k < 1 + a.len() {
                        assert(render_tokens(v)[k] == a[k - 1]);
                        assert(render_kinds(v)[k] == a2[k - 1]);
                    } else if k >= 1 + a.len() {
                        assert(render_tokens(v)[k] == b[k - 1 - a.len()]);
                        assert(render_kinds(v)[k] == b2[k - 1 - a.len()]);
                    }
                };
            }
        },
    }
}

/// As `lemma_render_tokens_kinds`, for one member.
pub proof fn lemma_render_tokens_kinds_member(e: (Seq<char>, JsonValue))
    ensures
        render_tokens_member(e).len() == render_member(e).len(),
        forall|k: int|
            0 <= k < render_tokens_member(e).len() ==> render_tokens_member(e)[k].kind
                == render_member(e)[k],
    decreases e, 0int,
{
    lemma_render_tokens_kinds(e.1);
    let a = render_tokens(e.1);
    let a2 = render_kinds(e.1);
    assert forall|k: int| 0 <= k < render_tokens_member(e).len() implies render_tokens_member(
        e,
    )[k].kind == render_member(e)[k] by {
        if k >= 2 {
            assert(render_tokens_member(e)[k] == a[k - 2]);
            assert(render_member(e)[k] == a2[k - 2]);
        }
    };
}

/// As `lemma_render_tokens_kinds`, for the elements still owed.
pub proof fn lemma_render_tokens_kinds_elems(items: Seq<JsonValue>)
    ensures
        render_tokens_elems_tail(items).len() == render_elems_tail(items).len(),
        forall|k: int|
            0 <= k < render_tokens_elems_tail(items).len() ==> render_tokens_elems_tail(
                items,
            )[k].kind == render_elems_tail(items)[k],
    decreases items, 2int,
{
    if items.len() > 0 {
        let rest2 = items.subrange(1, items.len() as int);
        lemma_render_tokens_kinds(items[0]);
        lemma_render_tokens_kinds_elems(rest2);
        let a = render_tokens(items[0]);
        let b = render_tokens_elems_tail(rest2);
        let a2 = render_kinds(items[0]);
        let b2 = render_elems_tail(rest2);
        assert forall|k: int| 0 <= k < render_tokens_elems_tail(items).len() implies
            render_tokens_elems_tail(items)[k].kind == render_elems_tail(items)[k] by {
            if 1 <= k < 1 + a.len() {
                assert(render_tokens_elems_tail(items)[k] == a[k - 1]);
                assert(render_elems_tail(items)[k] == a2[k - 1]);
            } else if k >= 1 + a.len() {
                assert(render_tokens_elems_tail(items)[k] == b[k - 1 - a.len()]);
                assert(render_elems_tail(items)[k] == b2[k - 1 - a.len()]);
            }
        };
    }
}

/// As `lemma_render_tokens_kinds`, for the members still owed.
pub proof fn lemma_render_tokens_kinds_members(entries: Seq<(Seq<char>, JsonValue)>)
    ensures
        render_tokens_members_tail(entries).len() == render_members_tail(entries).len(),
        forall|k: int|
            0 <= k < render_tokens_members_tail(entries).len() ==> render_tokens_members_tail(
                entries,
            )[k].kind == render_members_tail(entries)[k],
    decreases entries, 2int,
{
    if entries.len() > 0 {
        let rest2 = entries.subrange(1, entries.len() as int);
        lemma_render_tokens_kinds_member(entries[0]);
        lemma_render_tokens_kinds_members(rest2);
        let a = render_tokens_member(entries[0]);
        let b = render_tokens_members_tail(rest2);
        let a2 = render_member(entries[0]);
        let b2 = render_members_tail(rest2);
        assert forall|k: int| 0 <= k < render_tokens_members_tail(entries).len() implies
            render_tokens_members_tail(entries)[k].kind == render_members_tail(entries)[k] by {
            if 1 <= k < 1 + a.len() {
                assert(render_tokens_members_tail(entries)[k] == a[k - 1]);
                assert(render_members_tail(entries)[k] == a2[k - 1]);
            } else if k >= 1 + a.len() {
                assert(render_tokens_members_tail(entries)[k] == b[k - 1 - a.len()]);
                assert(render_members_tail(entries)[k] == b2[k - 1 - a.len()]);
            }
        };
    }
}

/// The characters `cs` stand at position `p` of `s`.
pub open spec fn chars_at(s: Seq<char>, p: int, cs: Seq<char>) -> bool {
    &&& 0 <= p
    &&& p + cs.len() <= s.len()
    &&& forall|k: int| 0 <= k < cs.len() ==> s[p + k] == cs[k]
}

/// A position at which a maximal-run token (a number or a keyword)
/// may end: the end of input, or a character that extends neither.
pub open spec fn token_boundary(s: Seq<char>, q: int) -> bool {
    q == s.len() || (!is_alnum_char(s[q]) && s[q] != '.')
}

/// Completeness of the scanner for one value: with the text of a
/// well-formed value at `p`, ending on a token boundary, the scan
/// yields exactly the value's tokens and goes on after them.
pub proof fn lemma_scan_value(s: Seq<char>, p: int, v: JsonValue)
    requires
        text_wf(v),
        chars_at(s, p, render_text(v)),
        token_boundary(s, p + render_text(v).len()),
    ensures
        spec_tokenize(s, p) == spec_prepend(
            render_tokens(v),
            spec_tokenize(s, p + render_text(v).len()),
        ),
    decreases v, 1int,
{
    let cs = render_text(v);
    let q = p + cs.len();
    match v {
        JsonValue::Null => {
            lemma_scan_keyword(s, p, seq!['n', 'u', 'l', 'l'], TokenKindV::Null);
        },
        JsonValue::Bool(b) => {
            if b {
                lemma_scan_keyword(s, p, seq!['t', 'r', 'u', 'e'], TokenKindV::True);
            } else {
                lemma_scan_keyword(s, p, seq!['f', 'a', 'l', 's', 'e'], TokenKindV::False);
            }
        },
        JsonValue::String(sv) => {
            assert(s[p + 0] == cs[0]);
            let b = p + 1 + sv.len();
            assert(s[b] == cs[1 + sv.len() as int]);
            assert forall|k: int| p + 1 <= k < b implies s[k] != '"' by {
                assert(s[p + (k - p)] == cs[k - p]);
                assert(cs[k - p] == sv[k - p - 1]);
            };
            lemma_close_quote_finds(s, p + 1, b);
            let body = s.subrange(p + 1, b);
            assert(body =~= sv) by {
                assert forall|k: int| 0 <= k < sv.len() implies body[k] == sv[k] by {
                    assert(s[p + (k + 1)] == cs[k + 1]);
                };
            };
            let tok = TokenV { kind: TokenKindV::String(body), lexeme: body };
            assert(spec_step(s, p) == Result::Ok::<(TokenV, int), LexicalError>((tok, q)));
            assert(seq![tok] =~= render_tokens(v));
            lemma_compose_one(s, p, q, tok, render_tokens(v));
        },
        JsonValue::Number(nv) => {
            lemma_scan_number_text(s, p, nv);
            let tok = TokenV { kind: TokenKindV::Number(nv), lexeme: spec_number_text(nv) };
            assert(seq![tok] =~= render_tokens(v));
            lemma_compose_one(s, p, q, tok, render_tokens(v));
        },
        JsonValue::Array(items) => {
            assert(s[p + 0] == cs[0]);
            let lb = TokenV { kind: TokenKindV::LeftBracket, lexeme: seq!['['] };
            assert(spec_step(s, p) == Result::Ok::<(TokenV, int), LexicalError>((lb, p + 1)));
            if items.len() == 0 {
                assert(s[p + 1] == cs[1]);
                let rb = TokenV { kind: TokenKindV::RightBracket, lexeme: seq![']'] };
                assert(spec_step(s, p + 1) == Result::Ok::<(TokenV, int), LexicalError>(
                    (rb, p + 2),
                ));
                lemma_compose_one(s, p + 1, q, rb, seq![rb]);
                lemma_compose_cons(s, p, p + 1, q, lb, seq![rb], render_tokens(v));
            } else {
                let rest2 = items.subrange(1, items.len() as int);
                let inner = render_text(items[0]) + render_text_elems_tail(rest2);
                assert(chars_at(s, p + 1, inner)) by {
                    assert forall|k: int| 0 <= k < inner.len() implies s[p + 1 + k] == inner[k] by {
                        assert(s[p + (k + 1)] == cs[k + 1]);
                    };
                };
                lemma_scan_elems_run(s, p + 1, items);
                lemma_compose_cons(
                    s,
                    p,
                    p + 1,
                    q,
                    lb,
                    render_tokens(items[0]) + render_tokens_elems_tail(rest2),
                    render_tokens(v),
                );
            }
        },
        JsonValue::Object(entries) => {
            assert(s[p + 0] == cs[0]);
            let lb = TokenV { kind: TokenKindV::LeftBrace, lexeme: seq!['{'] };
            assert(spec_step(s, p) == Result::Ok::<(TokenV, int), LexicalError>((lb, p + 1)));
            if entries.len() == 0 {
                assert(s[p + 1] == cs[1]);
                let rb = TokenV { kind: TokenKindV::RightBrace, lexeme: seq!['}'] };
                assert(spec_step(s, p + 1) == Result::Ok::<(TokenV, int), LexicalError>(
                    (rb, p + 2),
                ));
                lemma_compose_one(s, p + 1, q, rb, seq![rb]);
                lemma_compose_cons(s, p, p + 1, q, lb, seq![rb], render_tokens(v));
            } else {
                let rest2 = entries.subrange(1, entries.len() as int);
                let inner = render_text_member(entries[0]) + render_text_members_tail(rest2);
                assert(chars_at(s, p + 1, inner)) by {
                    assert forall|k: int| 0 <= k < inner.len() implies s[p + 1 + k] == inner[k] by {
                        assert(s[p + (k + 1)] == cs[k + 1]);
                    };
                };
                lemma_scan_members_run(s, p + 1, entries);
                lemma_compose_cons(
                    s,
                    p,
                    p + 1,
                    q,
                    lb,
                    render_tokens_member(entries[0]) + render_tokens_members_tail(rest2),
                    render_tokens(v),
                );
            }
        },
    }
}

/// One scanned token prefixed to the rest of the scan.
proof fn lemma_compose_one(s: Seq<char>, p: int, q: int, tok: TokenV, toks: Seq<TokenV>)
    requires
        spec_step(s, p) == Result::Ok::<(TokenV, int), LexicalError>((tok, q)),
        !(tok.kind is Eof),
        toks =~= seq![tok],
    ensures
        spec_tokenize(s, p) == spec_prepend(toks, spec_tokenize(s, q)),
{
    match spec_tokenize(s, q) {
        Result::Ok(rest) => {},
        Result::Err(_) => {},
    }
}

/// A scanned token prefixed to an already-composed run of tokens.
proof fn lemma_compose_cons(
    s: Seq<char>,
    p: int,
    m: int,
    q: int,
    tok: TokenV,
    toks: Seq<TokenV>,
    whole: Seq<TokenV>,
)
    requires
        spec_step(s, p) == Result::Ok::<(TokenV, int), LexicalError>((tok, m)),
        !(tok.kind is Eof),
        spec_tokenize(s, m) == spec_prepend(toks, spec_tokenize(s, q)),
        whole =~= seq![tok] + toks,
    ensures
        spec_tokenize(s, p) == spec_prepend(whole, spec_tokenize(s, q)),
{
    match spec_tokenize(s, q) {
        Result::Ok(rest) => {
            assert(spec_tokenize(s, m) == Result::Ok::<Seq<TokenV>, LexicalError>(toks + rest));
            assert(spec_tokenize(s, p) == Result::Ok::<Seq<TokenV>, LexicalError>(
                seq![tok] + (toks + rest),
            ));
            assert(seq![tok] + (toks + rest) =~= whole + rest);
        },
        Result::Err(_) => {},
    }
}

/// The scan of one keyword standing on a token boundary.
proof fn lemma_scan_keyword(s: Seq<char>, p: int, w: Seq<char>, kind: TokenKindV)
    requires
        chars_at(s, p, w),
        token_boundary(s, p + w.len()),
        (w == seq!['n', 'u', 'l', 'l'] && kind == TokenKindV::Null) || (w == seq![
            't',
            'r',
            'u',
            'e',
        ] && kind == TokenKindV::True) || (w == seq!['f', 'a', 'l', 's', 'e'] && kind
            == TokenKindV::False),
    ensures
        spec_tokenize(s, p) == spec_prepend(
            seq![TokenV { kind, lexeme: w }],
            spec_tokenize(s, p + w.len()),
        ),
{
    let q = p + w.len();
    assert(s[p + 0] == w[0]);
    assert forall|k: int| p <= k < q implies is_alnum_char(s[k]) by {
        assert(s[p + (k - p)] == w[k - p]);
    };
    lemma_alnum_run_stops(s, p, q);
    let word = s.subrange(p, q);
    assert(word =~= w) by {
        assert forall|k: int| 0 <= k < w.len() implies word[k] == w[k] by {
            assert(s[p + k] == w[k]);
        };
    };
    assert(word[0] == w[0]);
    let tok = TokenV { kind, lexeme: word };
    assert(spec_step(s, p) == Result::Ok::<(TokenV, int), LexicalError>((tok, q)));
    lemma_compose_one(s, p, q, tok, seq![TokenV { kind, lexeme: w }]);
}

/// The scan of one number standing on a token boundary.
proof fn lemma_scan_number_text(s: Seq<char>, p: int, nv: NumV)
    requires
        num_wf(nv),
        chars_at(s, p, spec_number_text(nv)),
        token_boundary(s, p + spec_number_text(nv).len()),
    ensures
        spec_step(s, p) == Result::Ok::<(TokenV, int), LexicalError>(
            (
            TokenV { kind: TokenKindV::Number(nv), lexeme: spec_number_text(nv) },
            p + spec_number_text(nv).len(),
            ),
        ),
{
    let cs = spec_number_text(nv);
    let q = p + cs.len();
    let digits_start = if nv.negative {
        p + 1
    } else {
        p
    };
    let int_end = digits_start + nv.int_part.len();
    assert(s[p + 0] == cs[0]);
    if nv.negative {
        assert(s[p] == '-');
    } else {
        assert(cs[0] == nv.int_part[0]);
        assert(is_digit_char(s[p]));
    }
    assert forall|k: int| digits_start <= k < int_end implies is_digit_char(s[k]) by {
        assert(s[p + (k - p)] == cs[k - p]);
        assert(cs[k - p] == nv.int_part[k - digits_start]);
    };
    if nv.frac_part.len() > 0 {
        let frac_start = int_end + 1;
        assert(s[p + (int_end - p)] == cs[int_end - p]);
        assert(cs[int_end - p] == '.');
        lemma_digit_run_stops(s, digits_start, int_end);
        assert forall|k: int| frac_start <= k < q implies is_digit_char(s[k]) by {
            assert(s[p + (k - p)] == cs[k - p]);
            assert(cs[k - p] == nv.frac_part[k - frac_start]);
        };
        lemma_digit_run_stops(s, frac_start, q);
        assert(spec_digit_run_end(s, digits_start) == int_end);
        assert(spec_digit_run_end(s, frac_start) == q);
        assert(s.subrange(digits_start, int_end) =~= nv.int_part) by {
            assert forall|k: int| 0 <= k < nv.int_part.len() implies s.subrange(
                digits_start,
                int_end,
            )[k] == nv.int_part[k] by {
                assert(s[p + (digits_start - p + k)] == cs[digits_start - p + k]);
            };
        };
        assert(s.subrange(frac_start, q) =~= nv.frac_part) by {
            assert forall|k: int| 0 <= k < nv.frac_part.len() implies s.subrange(frac_start, q)[k]
                == nv.frac_part[k] by {
                assert(s[p + (frac_start - p + k)] == cs[frac_start - p + k]);
            };
        };
        assert(s.subrange(p, q) =~= cs) by {
            assert forall|k: int| 0 <= k < cs.len() implies s.subrange(p, q)[k] == cs[k] by {
                assert(s[p + k] == cs[k]);
            };
        };
    } else {
        lemma_digit_run_stops(s, digits_start, int_end);
        assert(spec_digit_run_end(s, digits_start) == int_end);
        assert(int_end == q);
        assert(s.subrange(digits_start, int_end) =~= nv.int_part) by {
            assert forall|k: int| 0 <= k < nv.int_part.len() implies s.subrange(
                digits_start,
                int_end,
            )[k] == nv.int_part[k] by {
                assert(s[p + (digits_start - p + k)] == cs[digits_start - p + k]);
            };
        };
        assert(s.subrange(p, q) =~= cs) by {
            assert forall|k: int| 0 <= k < cs.len() implies s.subrange(p, q)[k] == cs[k] by {
                assert(s[p + k] == cs[k]);
            };
        };
        assert(Seq::<char>::empty() =~= nv.frac_part);
    }
}

/// Completeness of the scanner for the elements still owed, as
/// `lemma_scan_value` for one value.
proof fn lemma_scan_elems_run(s: Seq<char>, p: int, items: Seq<JsonValue>)
    requires
        items.len() > 0,
        list_text_wf(items),
        chars_at(
            s,
            p,
            render_text(items[0]) + render_text_elems_tail(
                items.subrange(1, items.len() as int),
            ),
        ),
    ensures
        spec_tokenize(s, p) == spec_prepend(
            render_tokens(items[0]) + render_tokens_elems_tail(
                items.subrange(1, items.len() as int),
            ),
            spec_tokenize(
                s,
                p + (render_text(items[0]) + render_text_elems_tail(
                    items.subrange(1, items.len() as int),
                )).len(),
            ),
        ),
    decreases items, 2int,
{
    let rest2 = items.subrange(1, items.len() as int);
    let vt = render_text(items[0]);
    let tail = render_text_elems_tail(rest2);
    let q = p + (vt + tail).len();
    let m = p + vt.len();
    assert(chars_at(s, p, vt)) by {
        assert forall|k: int| 0 <= k < vt.len() implies s[p + k] == vt[k] by {
            assert(s[p + k] == (vt + tail)[k]);
        };
    };
    assert(s[p + vt.len()] == (vt + tail)[vt.len() as int]);
    assert(token_boundary(s, m));
    lemma_scan_value(s, p, items[0]);
    if rest2.len() == 0 {
        let rb = TokenV { kind: TokenKindV::RightBracket, lexeme: seq![']'] };
        assert(spec_step(s, m) == Result::Ok::<(TokenV, int), LexicalError>((rb, q)));
        lemma_compose_one(s, m, q, rb, seq![rb]);
        lemma_compose_chain(
            s,
            p,
            m,
            q,
            render_tokens(items[0]),
            seq![rb],
            render_tokens(items[0]) + render_tokens_elems_tail(rest2),
        );
    } else {
        let rest3 = rest2.subrange(1, rest2.len() as int);
        let comma = TokenV { kind: TokenKindV::Comma, lexeme: seq![','] };
        assert(spec_step(s, m) == Result::Ok::<(TokenV, int), LexicalError>((comma, m + 1)));
        let inner = render_text(rest2[0]) + render_text_elems_tail(rest3);
        assert(chars_at(s, m + 1, inner)) by {
            assert forall|k: int| 0 <= k < inner.len() implies s[m + 1 + k] == inner[k] by {
                assert(s[p + (vt.len() + 1 + k)] == (vt + tail)[vt.len() + 1 + k]);
            };
        };
        lemma_scan_elems_run(s, m + 1, rest2);
        lemma_compose_cons(
            s,
            m,
            m + 1,
            q,
            comma,
            render_tokens(rest2[0]) + render_tokens_elems_tail(rest3),
            render_tokens_elems_tail(rest2),
        );
        lemma_compose_chain(
            s,
            p,
            m,
            q,
            render_tokens(items[0]),
            render_tokens_elems_tail(rest2),
            render_tokens(items[0]) + render_tokens_elems_tail(rest2),
        );
    }
}

/// Two composed runs of tokens, composed.
proof fn lemma_compose_chain(
    s: Seq<char>,
    p: int,
    m: int,
    q: int,
    toks1: Seq<TokenV>,
    toks2: Seq<TokenV>,
    whole: Seq<TokenV>,
)
    requires
        spec_tokenize(s, p) == spec_prepend(toks1, spec_tokenize(s, m)),
        spec_tokenize(s, m) == spec_prepend(toks2, spec_tokenize(s, q)),
        whole =~= toks1 + toks2,
    ensures
        spec_tokenize(s, p) == spec_prepend(whole, spec_tokenize(s, q)),
{
    match spec_tokenize(s, q) {
        Result::Ok(rest) => {
            assert(toks1 + (toks2 + rest) =~= whole + rest);
        },
        Result::Err(_) => {},
    }
}

/// Completeness of the scanner for the members still owed.
proof fn lemma_scan_members_run(s: Seq<char>, p: int, entries: Seq<(Seq<char>, JsonValue)>)
    requires
        entries.len() > 0,
        entries_text_wf(entries),
        chars_at(
            s,
            p,
            render_text_member(entries[0]) + render_text_members_tail(
                entries.subrange(1, entries.len() as int),
            ),
        ),
    ensures
        spec_tokenize(s, p) == spec_prepend(
            render_tokens_member(entries[0]) + render_tokens_members_tail(
                entries.subrange(1, entries.len() as int),
            ),
            spec_tokenize(
                s,
                p + (render_text_member(entries[0]) + render_text_members_tail(
                    entries.subrange(1, entries.len() as int),
                )).len(),
            ),
        ),
    decreases entries, 2int,
{
    let rest2 = entries.subrange(1, entries.len() as int);
    let e0 = entries[0];
    let mt = render_text_member(e0);
    let tail = render_text_members_tail(rest2);
    let q = p + (mt + tail).len();
    // the key string
    assert(s[p + 0] == (mt + tail)[0]);
    let key_close = p + 1 + e0.0.len();
    assert(s[p + (key_close - p)] == (mt + tail)[key_close - p]);
    assert forall|k: int| p + 1 <= k < key_close implies s[k] != '"' by {
        assert(s[p + (k - p)] == (mt + tail)[k - p]);
        assert(mt[k - p] == e0.0[k - p - 1]);
    };
    lemma_close_quote_finds(s, p + 1, key_close);
    let body = s.subrange(p + 1, key_close);
    assert(body =~= e0.0) by {
        assert forall|k: int| 0 <= k < e0.0.len() implies body[k] == e0.0[k] by {
            assert(s[p + (k + 1)] == (mt + tail)[k + 1]);
        };
    };
    let key_tok = TokenV { kind: TokenKindV::String(body), lexeme: body };
    assert(spec_step(s, p) == Result::Ok::<(TokenV, int), LexicalError>((key_tok, key_close + 1)));
    // the colon
    let colon_at = key_close + 1;
    assert(s[p + (colon_at - p)] == (mt + tail)[colon_at - p]);
    let colon_tok = TokenV { kind: TokenKindV::Colon, lexeme: seq![':'] };
    assert(spec_step(s, colon_at) == Result::Ok::<(TokenV, int), LexicalError>(
        (colon_tok, colon_at + 1),
    ));
    // the value
    let vstart = colon_at + 1;
    let vt = render_text(e0.1);
    assert(chars_at(s, vstart, vt)) by {
        assert forall|k: int| 0 <= k < vt.len() implies s[vstart + k] == vt[k] by {
            assert(s[p + (vstart - p + k)] == (mt + tail)[vstart - p + k]);
        };
    };
    let m = vstart + vt.len();
    assert(s[p + (m - p)] == (mt + tail)[m - p]);
    assert(token_boundary(s, m));
    lemma_scan_value(s, vstart, e0.1);
    // compose: key, colon, value tokens
    lemma_compose_cons(
        s,
        colon_at,
        vstart,
        m,
        colon_tok,
        render_tokens(e0.1),
        seq![colon_tok] + render_tokens(e0.1),
    );
    lemma_compose_cons(
        s,
        p,
        colon_at,
        m,
        key_tok,
        seq![colon_tok] + render_tokens(e0.1),
        seq![key_tok] + (seq![colon_tok] + render_tokens(e0.1)),
    );
    assert(seq![key_tok] + (seq![colon_tok] + render_tokens(e0.1)) =~= render_tokens_member(e0));
    assert(spec_tokenize(s, p) == spec_prepend(render_tokens_member(e0), spec_tokenize(s, m)));
    // the separator and the rest
    if rest2.len() == 0 {
        let rb = TokenV { kind: TokenKindV::RightBrace, lexeme: seq!['}'] };
        assert(spec_step(s, m) == Result::Ok::<(TokenV, int), LexicalError>((rb, q)));
        lemma_compose_one(s, m, q, rb, seq![rb]);
        lemma_compose_chain(
            s,
            p,
            m,
            q,
            render_tokens_member(e0),
            seq![rb],
            render_tokens_member(e0) + render_tokens_members_tail(rest2),
        );
    } else {
        let rest3 = rest2.subrange(1, rest2.len() as int);
        let comma = TokenV { kind: TokenKindV::Comma, lexeme: seq![','] };
        assert(spec_step(s, m) == Result::Ok::<(TokenV, int), LexicalError>((comma, m + 1)));
        let inner = render_text_member(rest2[0]) + render_text_members_tail(rest3);
        assert(chars_at(s, m + 1, inner)) by {
            assert forall|k: int| 0 <= k < inner.len() implies s[m + 1 + k] == inner[k] by {
                assert(s[p + (m + 1 + k - p)] == (mt + tail)[m + 1 + k - p]);
            };
        };
        lemma_scan_members_run(s, m + 1, rest2);
        lemma_compose_cons(
            s,
            m,
            m + 1,
            q,
            comma,
            render_tokens_member(rest2[0]) + render_tokens_members_tail(rest3),
            render_tokens_members_tail(rest2),
        );
        lemma_compose_chain(
            s,
            p,
            m,
            q,
            render_tokens_member(e0),
            render_tokens_members_tail(rest2),
            render_tokens_member(e0) + render_tokens_members_tail(rest2),
        );
    }
}

/// The whole pipeline round trip: every well-formed value tree, written
/// out as text — strings verbatim between quotes, numbers as their
/// digits, containers with their punctuation — is scanned and parsed
/// back to exactly itself.
pub proof fn lemma_pipeline_round_trip(v: JsonValue)
    requires
        value_wf(v),
        text_wf(v),
    ensures
        spec_pipeline(render_text(v)) == Result::Ok::<JsonValue, JsonError>(v),
{
    let s = render_text(v);
    let q = s.len() as int;
    assert(chars_at(s, 0, s));
    lemma_scan_value(s, 0, v);
    let eof_tok = TokenV { kind: TokenKindV::Eof, lexeme: Seq::empty() };
    assert(spec_tokenize(s, q) == Result::Ok::<Seq<TokenV>, LexicalError>(seq![eof_tok]));
    let ts = render_tokens(v) + seq![eof_tok];
    assert(spec_tokenize(s, 0) == Result::Ok::<Seq<TokenV>, LexicalError>(ts));
    lemma_render_tokens_kinds(v);
    assert(kinds_at(ts, 0, render_kinds(v))) by {
        assert forall|k: int| 0 <= k < render_kinds(v).len() implies ts[0 + k].kind
            == render_kinds(v)[k] by {
            assert(ts[k] == render_tokens(v)[k]);
        };
    };
    assert(ts[ts.len() - 1].kind is Eof);
    lemma_parse_round_trip(ts, v);
}

/// Soundness of the dispatch rule: every tree it yields is well
/// formed — the keys of every object, at every depth, are pairwise
/// distinct — and at least one token is consumed.
pub proof fn lemma_parse_value_sound(ts: Seq<TokenV>, i: int)
    ensures
        match spec_parse_value(ts, i) {
            Result::Ok((v, j)) => value_wf(v) && i < j <= ts.len(),
            Result::Err(_) => true,
        },
    decreases ts.len() - i, 1int,
{
    if 0 <= i < ts.len() {
        match ts[i].kind {
            TokenKindV::LeftBrace => {
                lemma_parse_members_sound(ts, i + 1, Seq::empty(), true);
            },
            TokenKindV::LeftBracket => {
                lemma_parse_elems_sound(ts, i + 1, Seq::empty(), true);
            },
            _ => {},
        }
    }
}

/// Soundness of the member loop: from members read so far that are
/// well formed with distinct keys, the object it closes is well formed.
pub proof fn lemma_parse_members_sound(
    ts: Seq<TokenV>,
    i: int,
    acc: Seq<(Seq<char>, JsonValue)>,
    ac: bool,
)
    requires
        keys_distinct(acc),
        entries_wf(acc),
    ensures
        match spec_parse_members(ts, i, acc, ac) {
            Result::Ok((v, j)) => value_wf(v) && i < j <= ts.len(),
            Result::Err(_) => true,
        },
    decreases ts.len() - i, 2int,
{
    if 0 <= i < ts.len() {
        match ts[i].kind {
            TokenKindV::String(key) => {
                if i + 1 < ts.len() && ts[i + 1].kind is Colon {
                    lemma_parse_value_sound(ts, i + 2);
                    match spec_parse_value(ts, i + 2) {
                        Result::Ok((value, j)) => {
                            lemma_upsert_wf(acc, key, value);
                            let acc2 = spec_upsert(acc, key, value);
                            if j < ts.len() && ts[j].kind is Comma && i < j {
                                lemma_parse_members_sound(ts, j + 1, acc2, false);
                            }
                        },
                        Result::Err(_) => {},
                    }
                }
            },
            _ => {},
        }
    }
}

/// Soundness of the element loop, as for members.
pub proof fn lemma_parse_elems_sound(ts: Seq<TokenV>, i: int, acc: Seq<JsonValue>, ac: bool)
    requires
        list_wf(acc),
    ensures
        match spec_parse_elems(ts, i, acc, ac) {
            Result::Ok((v, j)) => value_wf(v) && i < j <= ts.len(),
            Result::Err(_) => true,
        },
    decreases ts.len() - i, 2int,
{
    if 0 <= i < ts.len() {
        if !(ts[i].kind is RightBracket && ac) {
            lemma_parse_value_sound(ts, i);
            match spec_parse_value(ts, i) {
                Result::Ok((value, j)) => {
                    let acc2 = acc.push(value);
                    lemma_list_wf_push(acc, value);
                    if j < ts.len() && ts[j].kind is Comma && i < j {
                        lemma_parse_elems_sound(ts, j + 1, acc2, false);
                    }
                },
                Result::Err(_) => {},
            }
        }
    }
}

/// Appending a well-formed element keeps the list well formed.
proof fn lemma_list_wf_push(acc: Seq<JsonValue>, value: JsonValue)
    requires
        list_wf(acc),
        value_wf(value),
    ensures
        list_wf(acc.push(value)),
{
    lemma_list_wf_index(acc);
    lemma_list_wf_index(acc.push(value));
}

/// Every tree the builder yields for a whole document is well formed:
/// the keys of every object in it, at every depth, are pairwise
/// distinct, however the document spelled them.
pub proof fn lemma_parse_document_sound(ts: Seq<TokenV>)
    ensures
        match spec_parse_document(ts) {
            Result::Ok(v) => value_wf(v),
            Result::Err(_) => true,
        },
{
    lemma_parse_value_sound(ts, 0);
}

// ---------------------------------------------------------------------
// The executable tree builder
// ---------------------------------------------------------------------

/// Inserts a member into the vector of members read so far, the later
/// value winning on a duplicate key, exactly as `spec_upsert` says.
fn upsert(entries: &mut Vec<(String, JsonObject)>, key: String, value: JsonObject)
    ensures
        view_entries(final(entries)@) == spec_upsert(
            view_entries(old(entries)@),
            key@,
            view_value(value),
        ),
{
    let ghost dv0 = view_entries(old(entries)@);
    proof {
        lemma_view_entries_index(entries@);
    }
    let n: usize = entries.len();
    let mut idx: usize = 0;
    while idx < n
        invariant
            *entries == *old(entries),
            dv0 == view_entries(entries@),
            n == entries.len(),
            idx <= n,
            forall|k: int| 0 <= k < idx ==> dv0[k].0 != key@,
            view_entries(entries@).len() == entries@.len(),
            forall|i: int|
                0 <= i < entries@.len() ==> view_entries(entries@)[i] == (
                entries@[i].0@,
                view_value(entries@[i].1),
                ),
        decreases n - idx,
    {
        if entries[idx].0 == key {
            proof {
                lemma_find_key_range(dv0, key@, 0, idx as int);
                assert(spec_find_key(dv0, key@, idx as int) == idx);
            }
            entries[idx] = (key, value);
            proof {
                lemma_view_entries_index(entries@);
                assert(view_entries(entries@) =~= spec_upsert(dv0, key@, view_value(value)));
            }
            return ;
        }
        idx += 1;
    }
    proof {
        lemma_find_key_range(dv0, key@, 0, n as int);
        assert(spec_find_key(dv0, key@, 0) == dv0.len());
    }
    entries.push((key, value));
    proof {
        lemma_view_entries_index(entries@);
        assert(view_entries(entries@) =~= spec_upsert(dv0, key@, view_value(value)));
    }
}

/// Tree builder state: the token buffer, never mutated, and a
/// forward-only cursor into it.
#[derive(Debug)]
pub struct Parser {
    tokens: Vec<Token>,
    current: usize,
}

impl Parser {
    /// The views of the tokens the builder consumes.
    pub closed spec fn toks(self) -> Seq<TokenV> {
        self.tokens.deep_view()
    }

    /// The cursor position.
    pub closed spec fn pos(self) -> int {
        self.current as int
    }

    /// The cursor never leaves the token buffer.
    pub open spec fn wf(self) -> bool {
        0 <= self.pos() <= self.toks().len()
    }

    pub fn parser(tokens: Vec<Token>) -> (p: Parser)
        ensures
            p.toks() == tokens.deep_view(),
            p.pos() == 0,
            p.wf(),
    {
        Parser { tokens, current: 0 }
    }

    /// The token under the cursor, if any, without consuming it.
    fn peek(&self) -> (r: Option<&Token>)
        requires
            self.wf(),
        ensures
            match r {
                Some(t) => self.pos() < self.toks().len() && t@ == self.toks()[self.pos()],
                None => self.pos() == self.toks().len(),
            },
    {
        if self.current < self.tokens.len() {
            Some(&self.tokens[self.current])
        } else {
            None
        }
    }

    fn advance_current(&mut self)
        requires
            old(self).wf(),
            old(self).pos() < old(self).toks().len(),
        ensures
            final(self).toks() == old(self).toks(),
            final(self).pos() == old(self).pos() + 1,
            final(self).wf(),
    {
        let _n: usize = self.tokens.len();
        self.current = self.current + 1;
    }

    /// Consumes one string token and emits the string value.
    fn string_parse(&mut self) -> (r: Result<JsonObject, SyntaxError>)
        requires
            old(self).wf(),
            old(self).pos() < old(self).toks().len(),
            old(self).toks()[old(self).pos()].kind is String,
        ensures
            final(self).toks() == old(self).toks(),
            final(self).wf(),
            match r {
                Ok(v) => spec_parse_value(old(self).toks(), old(self).pos()) == Result::Ok::<
                    (JsonValue, int),
                    SyntaxError,
                >((view_value(v), final(self).pos())) && old(self).pos() < final(self).pos(),
                Err(e) => spec_parse_value(old(self).toks(), old(self).pos()) == Result::Err::<
                    (JsonValue, int),
                    SyntaxError,
                >(e),
            },
    {
        let sv: String;
        match &self.tokens[self.current].token_type {
            TokenKind::String(s) => {
                sv = s.clone();
            },
            _ => {
                return Err(SyntaxError::StrayToken);
            },
        }
        self.advance_current();
        Ok(JsonObject::String(sv))
    }

    /// Consumes one number token and emits the number value.
    fn number_parse(&mut self) -> (r: Result<JsonObject, SyntaxError>)
        requires
            old(self).wf(),
            old(self).pos() < old(self).toks().len(),
            old(self).toks()[old(self).pos()].kind is Number,
        ensures
            final(self).toks() == old(self).toks(),
            final(self).wf(),
            match r {
                Ok(v) => spec_parse_value(old(self).toks(), old(self).pos()) == Result::Ok::<
                    (JsonValue, int),
                    SyntaxError,
                >((view_value(v), final(self).pos())) && old(self).pos() < final(self).pos(),
                Err(e) => spec_parse_value(old(self).toks(), old(self).pos()) == Result::Err::<
                    (JsonValue, int),
                    SyntaxError,
                >(e),
            },
    {
        let nv: crate::lexer::JsonNumber;
        match &self.tokens[self.current].token_type {
            TokenKind::Number(n) => {
                nv = n.duplicate();
            },
            _ => {
                return Err(SyntaxError::StrayToken);
            },
        }
        self.advance_current();
        Ok(JsonObject::Number(nv))
    }

    /// The dispatch rule: inspects the token under the cursor and
    /// parses one value of whatever form begins there, exactly as
    /// `spec_parse_value` says.
    pub fn object_parse(&mut self) -> (r: Result<JsonObject, SyntaxError>)
        requires
            old(self).wf(),
        ensures
            final(self).toks() == old(self).toks(),
            final(self).wf(),
            match r {
                Ok(v) => spec_parse_value(old(self).toks(), old(self).pos()) == Result::Ok::<
                    (JsonValue, int),
                    SyntaxError,
                >((view_value(v), final(self).pos())) && old(self).pos() < final(self).pos(),
                Err(e) => spec_parse_value(old(self).toks(), old(self).pos()) == Result::Err::<
                    (JsonValue, int),
                    SyntaxError,
                >(e),
            },
        decreases old(self).toks().len() - old(self).pos(), 1int,
    {
        if self.current >= self.tokens.len() {
            return Err(SyntaxError::UnexpectedEndOfInput);
        }
        match &self.tokens[self.current].token_type {
            TokenKind::String(_) => self.string_parse(),
            TokenKind::Number(_) => self.number_parse(),
            TokenKind::LeftBrace => self.json_object_parse(),
            TokenKind::LeftBracket => self.array_parse(),
            TokenKind::True => {
                self.advance_current();
                Ok(JsonObject::Bool(true))
            },
            TokenKind::False => {
                self.advance_current();
                Ok(JsonObject::Bool(false))
            },
            TokenKind::Null => {
                self.advance_current();
                Ok(JsonObject::Null)
            },
            TokenKind::Eof => Err(SyntaxError::UnexpectedEndOfInput),
            _ => Err(SyntaxError::StrayToken),
        }
    }

    /// The object rule: consumes the opening brace and the members up
    /// to the matching closing brace.
    fn json_object_parse(&mut self) -> (r: Result<JsonObject, SyntaxError>)
        requires
            old(self).wf(),
            old(self).pos() < old(self).toks().len(),
            old(self).toks()[old(self).pos()].kind is LeftBrace,
        ensures
            final(self).toks() == old(self).toks(),
            final(self).wf(),
            match r {
                Ok(v) => spec_parse_value(old(self).toks(), old(self).pos()) == Result::Ok::<
                    (JsonValue, int),
                    SyntaxError,
                >((view_value(v), final(self).pos())) && old(self).pos() < final(self).pos(),
                Err(e) => spec_parse_value(old(self).toks(), old(self).pos()) == Result::Err::<
                    (JsonValue, int),
                    SyntaxError,
                >(e),
            },
        decreases old(self).toks().len() - old(self).pos(), 0int,
    {
        self.advance_current();
        let entries: Vec<(String, JsonObject)> = Vec::new();
        proof {
            assert(view_entries(entries@) =~= Seq::<(Seq<char>, JsonValue)>::empty());
        }
        self.object_members(entries, true)
    }

    /// The member loop of the object rule, as `spec_parse_members`
    /// says; `entries` holds the members read so far.
    fn object_members(&mut self, entries: Vec<(String, JsonObject)>, allow_close: bool) -> (r:
        Result<JsonObject, SyntaxError>)
        requires
            old(self).wf(),
        ensures
            final(self).toks() == old(self).toks(),
            final(self).wf(),
            match r {
                Ok(v) => spec_parse_members(
                    old(self).toks(),
                    old(self).pos(),
                    view_entries(entries@),
                    allow_close,
                ) == Result::Ok::<(JsonValue, int), SyntaxError>((view_value(v), final(self).pos()))
                    && old(self).pos() < final(self).pos(),
                Err(e) => spec_parse_members(
                    old(self).toks(),
                    old(self).pos(),
                    view_entries(entries@),
                    allow_close,
                ) == Result::Err::<(JsonValue, int), SyntaxError>(e),
            },
        decreases old(self).toks().len() - old(self).pos(), 2int,
    {
        if self.current >= self.tokens.len() {
            return Err(SyntaxError::UnexpectedEndOfInput);
        }
        let key: String;
        match &self.tokens[self.current].token_type {
            TokenKind::RightBrace => {
                if allow_close {
                    self.advance_current();
                    return Ok(JsonObject::Object(entries));
                } else {
                    return Err(SyntaxError::ExpectedStringKey);
                }
            },
            TokenKind::String(s) => {
                key = s.clone();
            },
            _ => {
                return Err(SyntaxError::ExpectedStringKey);
            },
        }
        self.advance_current();
        if self.current >= self.tokens.len() {
            return Err(SyntaxError::UnexpectedEndOfInput);
        }
        match &self.tokens[self.current].token_type {
            TokenKind::Colon => {
                self.advance_current();
            },
            _ => {
                return Err(SyntaxError::ExpectedColon);
            },
        }
        let value = match self.object_parse() {
            Ok(v) => v,
            Err(e) => {
                return Err(e);
            },
        };
        let mut entries2 = entries;
        upsert(&mut entries2, key, value);
        if self.current >= self.tokens.len() {
            return Err(SyntaxError::UnexpectedEndOfInput);
        }
        match &self.tokens[self.current].token_type {
            TokenKind::Comma => {
                self.advance_current();
                self.object_members(entries2, false)
            },
            TokenKind::RightBrace => {
                self.advance_current();
                Ok(JsonObject::Object(entries2))
            },
            _ => Err(SyntaxError::ExpectedCommaOrClose),
        }
    }

    /// The array rule: consumes the opening bracket and the elements up
    /// to the matching closing bracket.
    fn array_parse(&mut self) -> (r: Result<JsonObject, SyntaxError>)
        requires
            old(self).wf(),
            old(self).pos() < old(self).toks().len(),
            old(self).toks()[old(self).pos()].kind is LeftBracket,
        ensures
            final(self).toks() == old(self).toks(),
            final(self).wf(),
            match r {
                Ok(v) => spec_parse_value(old(self).toks(), old(self).pos()) == Result::Ok::<
                    (JsonValue, int),
                    SyntaxError,
                >((view_value(v), final(self).pos())) && old(self).pos() < final(self).pos(),
                Err(e) => spec_parse_value(old(self).toks(), old(self).pos()) == Result::Err::<
                    (JsonValue, int),
                    SyntaxError,
                >(e),
            },
        decreases old(self).toks().len() - old(self).pos(), 0int,
    {
        self.advance_current();
        let items: Vec<JsonObject> = Vec::new();
        proof {
            assert(view_list(items@) =~= Seq::<JsonValue>::empty());
        }
        self.array_elems(items, true)
    }

    /// The element loop of the array rule, as `spec_parse_elems` says;
    /// `items` holds the elements read so far.
    fn array_elems(&mut self, items: Vec<JsonObject>, allow_close: bool) -> (r: Result<
        JsonObject,
        SyntaxError,
    >)
        requires
            old(self).wf(),
        ensures
            final(self).toks() == old(self).toks(),
            final(self).wf(),
            match r {
                Ok(v) => spec_parse_elems(
                    old(self).toks(),
                    old(self).pos(),
                    view_list(items@),
                    allow_close,
                ) == Result::Ok::<(JsonValue, int), SyntaxError>((view_value(v), final(self).pos()))
                    && old(self).pos() < final(self).pos(),
                Err(e) => spec_parse_elems(
                    old(self).toks(),
                    old(self).pos(),
                    view_list(items@),
                    allow_close,
                ) == Result::Err::<(JsonValue, int), SyntaxError>(e),
            },
        decreases old(self).toks().len() - old(self).pos(), 2int,
    {
        if self.current >= self.tokens.len() {
            return Err(SyntaxError::UnexpectedEndOfInput);
        }
        let mut close = false;
        match &self.tokens[self.current].token_type {
            TokenKind::RightBracket => {
                close = allow_close;
            },
            _ => {},
        }
        if close {
            self.advance_current();
            return Ok(JsonObject::Array(items));
        }
        let value = match self.object_parse() {
            Ok(v) => v,
            Err(e) => {
                return Err(e);
            },
        };
        let ghost items_old = items@;
        let mut items2 = items;
        items2.push(value);
        proof {
            lemma_view_list_index(items_old);
            lemma_view_list_index(items2@);
            assert(view_list(items2@) =~= view_list(items_old).push(view_value(value)));
        }
        if self.current >= self.tokens.len() {
            return Err(SyntaxError::UnexpectedEndOfInput);
        }
        match &self.tokens[self.current].token_type {
            TokenKind::Comma => {
                self.advance_current();
                self.array_elems(items2, false)
            },
            TokenKind::RightBracket => {
                self.advance_current();
                Ok(JsonObject::Array(items2))
            },
            _ => Err(SyntaxError::ExpectedCommaOrClose),
        }
    }
}

/// Builds the value tree of a whole token sequence, consuming it from
/// position 0 through the end-of-input token, exactly as
/// `spec_parse_document` says.
pub fn parse(tokens: Vec<Token>) -> (r: Result<JsonObject, SyntaxError>)
    ensures
        match r {
            Ok(v) => spec_parse_document(tokens.deep_view()) == Result::Ok::<
                JsonValue,
                SyntaxError,
            >(view_value(v)),
            Err(e) => spec_parse_document(tokens.deep_view()) == Result::Err::<
                JsonValue,
                SyntaxError,
            >(e),
        },
{
    let mut builder = Parser::parser(tokens);
    let value = match builder.object_parse() {
        Ok(v) => v,
        Err(e) => {
            return Err(e);
        },
    };
    match builder.peek() {
        None => Err(SyntaxError::UnexpectedEndOfInput),
        Some(t) => match &t.token_type {
            TokenKind::Eof => Ok(value),
            _ => Err(SyntaxError::StrayToken),
        },
    }
}

/// The two-stage pipeline over the characters of a document: scan,
/// then build, with either stage's failure labelled with its kind.
pub open spec fn spec_pipeline(s: Seq<char>) -> Result<JsonValue, JsonError> {
    match crate::lexer::spec_tokenize(s, 0) {
        Result::Err(e) => Result::Err(JsonError::Lexical(e)),
        Result::Ok(ts) => match spec_parse_document(ts) {
            Result::Err(e) => Result::Err(JsonError::Syntax(e)),
            Result::Ok(v) => Result::Ok(v),
        },
    }
}

/// Converts one textual JSON document into its value tree, or fails
/// with the first error met left-to-right, exactly as `spec_pipeline`
/// says.
pub fn parse_document(source: &str) -> (r: Result<JsonObject, JsonError>)
    ensures
        match r {
            Ok(v) => spec_pipeline(source@) == Result::Ok::<JsonValue, JsonError>(view_value(v)),
            Err(e) => spec_pipeline(source@) == Result::Err::<JsonValue, JsonError>(e),
        },
{
    let tokens = match crate::lexer::tokenize(source) {
        Ok(ts) => ts,
        Err(e) => {
            return Err(JsonError::Lexical(e));
        },
    };
    match parse(tokens) {
        Ok(v) => Ok(v),
        Err(e) => Err(JsonError::Syntax(e)),
    }
}

} // verus!
