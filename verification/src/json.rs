//! JSON documents.
//!
//! [`Json`] holds a document as plain values. Reading and writing its text is
//! `serde_json`'s work: a document crosses over one level at a time, through
//! [`Level`], and the functions here do the rest.
use vstd::prelude::*;

use crate::keyed;
use crate::text;

verus! {

// ---------------------------------------------------------------------------
// The model
// ---------------------------------------------------------------------------

/// What a number holds: an integer, or the bits of a double.
pub enum NumberView {
    PosInt(u64),
    NegInt(i64),
    Float(u64),
}

/// What a document holds.
pub enum JsonView {
    Null,
    Bool(bool),
    Number(NumberView),
    Text(Seq<char>),
    Array(Seq<JsonView>),
    Object(Seq<(Seq<char>, JsonView)>),
}

/// The number as an `i64`, where it is an integer in range.
pub open spec fn number_i64(n: NumberView) -> Option<i64> {
    match n {
        NumberView::PosInt(u) => if u <= i64::MAX {
            Some(u as i64)
        } else {
            None
        },
        NumberView::NegInt(i) => Some(i),
        NumberView::Float(_) => None,
    }
}

/// The number as a `u64`, where it is an integer in range.
pub open spec fn number_u64(n: NumberView) -> Option<u64> {
    match n {
        NumberView::PosInt(u) => Some(u),
        _ => None,
    }
}

/// The number that stands for `i`.
pub open spec fn integer(i: i64) -> NumberView {
    if i >= 0 {
        NumberView::PosInt(i as u64)
    } else {
        NumberView::NegInt(i)
    }
}

/// The member of `v` under `key`, where `v` is an object that has one.
pub open spec fn member(v: JsonView, key: Seq<char>) -> Option<JsonView> {
    match v {
        JsonView::Object(fields) => keyed::lookup(fields, key),
        _ => None,
    }
}

/// The text of `v`, where it is one.
pub open spec fn text_of(v: JsonView) -> Option<Seq<char>> {
    match v {
        JsonView::Text(s) => Some(s),
        _ => None,
    }
}

/// The items of `v`, where it is an array.
pub open spec fn items_of(v: JsonView) -> Option<Seq<JsonView>> {
    match v {
        JsonView::Array(s) => Some(s),
        _ => None,
    }
}

/// The text under `key`.
pub open spec fn member_text(v: JsonView, key: Seq<char>) -> Option<Seq<char>> {
    match member(v, key) {
        Some(x) => text_of(x),
        None => None,
    }
}

/// The text under `key`, or none at all.
pub open spec fn member_text_or_empty(v: JsonView, key: Seq<char>) -> Seq<char> {
    match member_text(v, key) {
        Some(x) => x,
        None => Seq::empty(),
    }
}

/// The items under `key`.
pub open spec fn member_items(v: JsonView, key: Seq<char>) -> Option<Seq<JsonView>> {
    match member(v, key) {
        Some(x) => items_of(x),
        None => None,
    }
}

/// The `i64` under `key`.
pub open spec fn member_i64(v: JsonView, key: Seq<char>) -> Option<i64> {
    match member(v, key) {
        Some(JsonView::Number(n)) => number_i64(n),
        _ => None,
    }
}

/// The `u64` under `key`.
pub open spec fn member_u64(v: JsonView, key: Seq<char>) -> Option<u64> {
    match member(v, key) {
        Some(JsonView::Number(n)) => number_u64(n),
        _ => None,
    }
}

/// The truth value under `key`.
pub open spec fn member_bool(v: JsonView, key: Seq<char>) -> Option<bool> {
    match member(v, key) {
        Some(JsonView::Bool(b)) => Some(b),
        _ => None,
    }
}

/// The member under `key`, unless it is `null`.
pub open spec fn member_not_null(v: JsonView, key: Seq<char>) -> Option<JsonView> {
    match member(v, key) {
        Some(JsonView::Null) => None,
        other => other,
    }
}

/// The pairs as an object keeps them: put in one after the other.
pub open spec fn collected<T>(s: Seq<(Seq<char>, T)>) -> Seq<(Seq<char>, T)>
    decreases s.len(),
{
    if s.len() == 0 {
        s
    } else {
        keyed::put(collected(s.drop_last()), s.last().0, s.last().1)
    }
}

/// `v` with the members of every object in increasing order of their keys, and of
/// members with one key the last.
pub open spec fn canonical(v: JsonView) -> JsonView
    decreases v,
{
    match v {
        JsonView::Array(s) => JsonView::Array(
            Seq::new(
                s.len(),
                |i: int|
                    if 0 <= i < s.len() {
                        canonical(s[i])
                    } else {
                        JsonView::Null
                    },
            ),
        ),
        JsonView::Object(s) => JsonView::Object(canonical_fields(s)),
        _ => v,
    }
}

/// The members of an object in their canonical form.
pub open spec fn canonical_fields(s: Seq<(Seq<char>, JsonView)>) -> Seq<(Seq<char>, JsonView)>
    decreases s,
{
    if s.len() == 0 {
        s
    } else {
        keyed::put(canonical_fields(s.drop_last()), s.last().0, canonical(s.last().1))
    }
}

/// Whether `v` is a document as reading gives it: the members of every object in
/// increasing order of their keys, and negative what is kept as negative.
pub open spec fn orderly(v: JsonView) -> bool
    decreases v,
{
    match v {
        JsonView::Number(NumberView::NegInt(i)) => i < 0,
        JsonView::Array(s) => forall|i: int| 0 <= i < s.len() ==> orderly(#[trigger] s[i]),
        JsonView::Object(s) => keyed::increasing(s) && forall|i: int|
            0 <= i < s.len() ==> orderly((#[trigger] s[i]).1),
        _ => true,
    }
}

/// Whether `v` holds no double and nests at most `depth` arrays and objects.
pub open spec fn exact_within(v: JsonView, depth: nat) -> bool
    decreases v,
{
    match v {
        JsonView::Number(NumberView::Float(_)) => false,
        JsonView::Array(s) => depth > 0 && forall|i: int|
            0 <= i < s.len() ==> exact_within(#[trigger] s[i], (depth - 1) as nat),
        JsonView::Object(s) => depth > 0 && forall|i: int|
            0 <= i < s.len() ==> exact_within((#[trigger] s[i]).1, (depth - 1) as nat),
        _ => true,
    }
}

/// The depth to which `serde_json` reads nested arrays and objects.
pub open spec fn depth_limit() -> nat {
    127
}

/// Whether writing `v` and reading the text gives back `v`.
pub open spec fn durable(v: JsonView) -> bool {
    orderly(v) && exact_within(v, depth_limit())
}

/// The text of a document.
pub open spec fn written(v: JsonView) -> Seq<char> {
    json_text(canonical(v))
}

// ---------------------------------------------------------------------------
// serde_json
// ---------------------------------------------------------------------------

/// `serde_json::Value`: a document as `serde_json` holds it.
#[verifier::external_type_specification]
#[verifier::external_body]
pub struct ExValue(serde_json::Value);

/// `serde_json::Number`: a JSON number.
#[verifier::external_type_specification]
#[verifier::external_body]
pub struct ExNumber(serde_json::Number);

/// `serde_json::Error`: why a text is no document.
#[verifier::external_type_specification]
#[verifier::external_body]
pub struct ExJsonError(serde_json::Error);

/// What a `serde_json::Value` holds.
pub uninterp spec fn value_view(v: serde_json::Value) -> JsonView;

/// What a `serde_json::Number` holds.
pub uninterp spec fn number_view(n: serde_json::Number) -> NumberView;

/// The document that `serde_json::from_str` reads from a text, if it is one.
pub uninterp spec fn json_parse(text: Seq<char>) -> Option<JsonView>;

/// The text that `serde_json::Value::to_string` writes.
pub uninterp spec fn json_text(v: JsonView) -> Seq<char>;

/// The bits of the double that `serde_json::Number::as_f64` gives.
pub uninterp spec fn double_bits(n: NumberView) -> u64;

/// The integer to which a double, given by its bits, is cast.
pub uninterp spec fn double_to_int(bits: u64) -> i64;

/// `serde_json::Number::as_i64`: the integer where it is in the range of `i64`.
pub assume_specification[ serde_json::Number::as_i64 ](n: &serde_json::Number) -> (r: Option<i64>)
    ensures
        r == number_i64(number_view(*n)),
;

/// `serde_json::Number::as_u64`: the integer where it is in the range of `u64`.
pub assume_specification[ serde_json::Number::as_u64 ](n: &serde_json::Number) -> (r: Option<u64>)
    ensures
        r == number_u64(number_view(*n)),
;

/// `serde_json::Number::clone`: the same number.
pub assume_specification[ <serde_json::Number as Clone>::clone ](n: &serde_json::Number) -> (r:
    serde_json::Number)
    ensures
        number_view(r) == number_view(*n),
;

/// `serde_json::Number::as_f64`, as the bits of the double. Every number has
/// one; that of a double is the double itself. Which double stands for an integer
/// is left to the name.
#[verifier::external_body]
fn number_bits(n: &serde_json::Number) -> (r: Option<u64>)
    ensures
        r == Some(double_bits(number_view(*n))),
        number_view(*n) matches NumberView::Float(bits) ==> r == Some(bits),
{
    n.as_f64().map(|x| x.to_bits())
}

/// `serde_json::Number::as_f64`, cast to an `i64`. What the cast gives is a
/// function of the double.
#[verifier::external_body]
fn number_cast(n: &serde_json::Number) -> (r: Option<i64>)
    ensures
        r == Some(double_to_int(double_bits(number_view(*n)))),
{
    n.as_f64().map(|x| x as i64)
}

/// `serde_json::Number::from` of an `i64`: the number of that integer.
#[verifier::external_body]
fn number_of(i: i64) -> (r: serde_json::Number)
    ensures
        number_view(r) == integer(i),
{
    serde_json::Number::from(i)
}

/// `serde_json::Number::from` of a `u64`: the number of that integer.
#[verifier::external_body]
fn number_of_unsigned(u: u64) -> (r: serde_json::Number)
    ensures
        number_view(r) == NumberView::PosInt(u),
{
    serde_json::Number::from(u)
}

/// One level of a document: what stands below is still `serde_json`'s.
pub enum Level {
    Null,
    Bool(bool),
    Number(serde_json::Number),
    Text(String),
    Array(Vec<serde_json::Value>),
    Object(Vec<(String, serde_json::Value)>),
}

/// The documents in `v`.
pub open spec fn value_views(v: Seq<serde_json::Value>) -> Seq<JsonView> {
    Seq::new(v.len(), |i: int| value_view(v[i]))
}

/// The members in `v`.
pub open spec fn member_views(v: Seq<(String, serde_json::Value)>) -> Seq<(Seq<char>, JsonView)> {
    Seq::new(v.len(), |i: int| (v[i].0@, value_view(v[i].1)))
}

/// What a level holds.
pub open spec fn level_view(l: Level) -> JsonView {
    match l {
        Level::Null => JsonView::Null,
        Level::Bool(b) => JsonView::Bool(b),
        Level::Number(n) => JsonView::Number(number_view(n)),
        Level::Text(s) => JsonView::Text(s@),
        Level::Array(items) => JsonView::Array(value_views(items@)),
        Level::Object(fields) => JsonView::Object(member_views(fields@)),
    }
}

/// Opens one level of a `serde_json::Value`. The members of an object come in
/// increasing order of their keys, each key once, and what `serde_json` keeps as a
/// negative integer is negative.
#[verifier::external_body]
fn open_level(v: serde_json::Value) -> (r: Level)
    ensures
        level_view(r) == value_view(v),
        r matches Level::Object(fields) ==> keyed::increasing(member_views(fields@)),
        r matches Level::Number(n) ==> (number_view(n) matches NumberView::NegInt(i) ==> i < 0),
{
    match v {
        serde_json::Value::Null => Level::Null,
        serde_json::Value::Bool(b) => Level::Bool(b),
        serde_json::Value::Number(n) => Level::Number(n),
        serde_json::Value::String(s) => Level::Text(s),
        serde_json::Value::Array(items) => Level::Array(items),
        serde_json::Value::Object(fields) => Level::Object(fields.into_iter().collect()),
    }
}

/// Closes one level into a `serde_json::Value`. The members of an object are put
/// in one after the other, and kept in increasing order of their keys.
#[verifier::external_body]
fn close_level(l: Level) -> (r: serde_json::Value)
    ensures
        value_view(r) == match level_view(l) {
            JsonView::Object(fields) => JsonView::Object(collected(fields)),
            other => other,
        },
{
    match l {
        Level::Null => serde_json::Value::Null,
        Level::Bool(b) => serde_json::Value::Bool(b),
        Level::Number(n) => serde_json::Value::Number(n),
        Level::Text(s) => serde_json::Value::String(s),
        Level::Array(items) => serde_json::Value::Array(items),
        Level::Object(fields) => serde_json::Value::Object(fields.into_iter().collect()),
    }
}

/// `serde_json::from_str`: the document that the text is, or an error where it
/// is none.
#[verifier::external_body]
fn read_value(text: &str) -> (r: Result<serde_json::Value, serde_json::Error>)
    ensures
        match r {
            Ok(v) => json_parse(text@) == Some(value_view(v)),
            Err(_) => json_parse(text@) is None,
        },
{
    serde_json::from_str(text)
}

/// `serde_json::Value::to_string`: the text of the document. Reading it gives the
/// document back where it holds no double and nests no deeper than is read. (The
/// reader need not find the very double that was written.)
#[verifier::external_body]
fn write_value(v: &serde_json::Value) -> (r: String)
    ensures
        r@ == json_text(value_view(*v)),
        durable(value_view(*v)) ==> json_parse(r@) == Some(value_view(*v)),
{
    v.to_string()
}

// ---------------------------------------------------------------------------
// Documents
// ---------------------------------------------------------------------------

/// A JSON document.
pub enum Json {
    Null,
    Bool(bool),
    Number(serde_json::Number),
    Text(String),
    Array(Vec<Json>),
    Object(Vec<(String, Json)>),
}

/// What a document holds.
pub open spec fn json_view(j: Json) -> JsonView
    decreases j,
{
    match j {
        Json::Null => JsonView::Null,
        Json::Bool(b) => JsonView::Bool(b),
        Json::Number(n) => JsonView::Number(number_view(n)),
        Json::Text(s) => JsonView::Text(s@),
        Json::Array(items) => JsonView::Array(
            Seq::new(
                items@.len(),
                |i: int|
                    if 0 <= i < items@.len() {
                        json_view(items@[i])
                    } else {
                        JsonView::Null
                    },
            ),
        ),
        Json::Object(fields) => JsonView::Object(
            Seq::new(
                fields@.len(),
                |i: int|
                    if 0 <= i < fields@.len() {
                        (fields@[i].0@, json_view(fields@[i].1))
                    } else {
                        (Seq::<char>::empty(), JsonView::Null)
                    },
            ),
        ),
    }
}

impl View for Json {
    type V = JsonView;

    open spec fn view(&self) -> JsonView {
        json_view(*self)
    }
}

/// The documents in `v`.
pub open spec fn views(v: Seq<Json>) -> Seq<JsonView> {
    Seq::new(v.len(), |i: int| v[i]@)
}

/// The members in `v`.
pub open spec fn field_views(v: Seq<(String, Json)>) -> Seq<(Seq<char>, JsonView)> {
    Seq::new(v.len(), |i: int| (v[i].0@, v[i].1@))
}

/// What an optional document holds.
pub open spec fn opt_view(v: Option<Json>) -> Option<JsonView> {
    match v {
        Some(j) => Some(j@),
        None => None,
    }
}

/// An array holds its items, an object its members.
pub broadcast proof fn lemma_view(j: Json)
    ensures
        (j matches Json::Array(items) ==> (#[trigger] j@) == JsonView::Array(views(items@))),
        (j matches Json::Object(fields) ==> j@ == JsonView::Object(field_views(fields@))),
{
    match j {
        Json::Array(items) => {
            assert(j@->Array_0 =~= views(items@));
        },
        Json::Object(fields) => {
            assert(j@->Object_0 =~= field_views(fields@));
        },
        _ => {},
    }
}

/// The canonical form of an object, member by member.
proof fn lemma_canonical_fields(s: Seq<(Seq<char>, JsonView)>, t: Seq<(Seq<char>, JsonView)>)
    requires
        t.len() == s.len(),
        forall|i: int|
            0 <= i < s.len() ==> (#[trigger] t[i]) == (s[i].0, canonical(s[i].1)),
    ensures
        canonical_fields(s) == collected(t),
    decreases s.len(),
{
    if s.len() > 0 {
        lemma_canonical_fields(s.drop_last(), t.drop_last());
    } else {
        assert(s =~= t);
    }
}

/// The document that `serde_json` holds in `v`.
pub(crate) fn from_value(v: serde_json::Value) -> (r: Json)
    ensures
        r@ == value_view(v),
        orderly(r@),
    decreases value_view(v),
{
    broadcast use lemma_view;

    match open_level(v) {
        Level::Null => Json::Null,
        Level::Bool(b) => Json::Bool(b),
        Level::Number(n) => Json::Number(n),
        Level::Text(s) => Json::Text(s),
        Level::Array(items) => {
            let mut rest = items;
            let ghost all = items@;
            let mut out: Vec<Json> = Vec::new();
            while rest.len() > 0
                invariant
                    value_view(v) == JsonView::Array(value_views(all)),
                    out@.len() <= all.len(),
                    rest@ =~= all.skip(out@.len() as int),
                    forall|i: int|
                        0 <= i < out@.len() ==> (#[trigger] out@[i])@ == value_view(all[i])
                            && orderly(out@[i]@),
                decreases rest.len(),
            {
                let item = rest.remove(0);
                proof {
                    let s = value_view(v)->Array_0;
                    assert(s[out@.len() as int] == value_view(item));
                }
                out.push(from_value(item));
            }
            assert(views(out@) =~= value_views(all));
            let r = Json::Array(out);
            proof {
                lemma_view(r);
                assert forall|i: int| 0 <= i < views(out@).len() implies orderly(
                    #[trigger] views(out@)[i],
                ) by {
                    assert(orderly(out@[i]@));
                }
            }
            r
        },
        Level::Object(fields) => {
            let mut rest = fields;
            let ghost all = fields@;
            let mut out: Vec<(String, Json)> = Vec::new();
            while rest.len() > 0
                invariant
                    value_view(v) == JsonView::Object(member_views(all)),
                    out@.len() <= all.len(),
                    rest@ =~= all.skip(out@.len() as int),
                    forall|i: int|
                        0 <= i < out@.len() ==> (#[trigger] out@[i]).0@ == all[i].0@
                            && out@[i].1@ == value_view(all[i].1) && orderly(out@[i].1@),
                decreases rest.len(),
            {
                let (key, item) = rest.remove(0);
                proof {
                    let s = value_view(v)->Object_0;
                    assert(s[out@.len() as int].1 == value_view(item));
                }
                out.push((key, from_value(item)));
            }
            assert(field_views(out@) =~= member_views(all));
            let r = Json::Object(out);
            proof {
                lemma_view(r);
                assert forall|i: int| 0 <= i < field_views(out@).len() implies orderly(
                    (#[trigger] field_views(out@)[i]).1,
                ) by {
                    assert(orderly(out@[i].1@));
                }
            }
            r
        },
    }
}

/// The document as `serde_json` holds it.
pub(crate) fn to_value(j: &Json) -> (r: serde_json::Value)
    ensures
        value_view(r) == canonical(j@),
    decreases j@,
{
    broadcast use lemma_view;

    match j {
        Json::Null => close_level(Level::Null),
        Json::Bool(b) => close_level(Level::Bool(*b)),
        Json::Number(n) => close_level(Level::Number(n.clone())),
        Json::Text(s) => close_level(Level::Text(s.clone())),
        Json::Array(items) => {
            let mut out: Vec<serde_json::Value> = Vec::new();
            let mut i: usize = 0;
            while i < items.len()
                invariant
                    *j == Json::Array(*items),
                    i <= items@.len(),
                    out@.len() == i,
                    forall|k: int|
                        0 <= k < i ==> value_view(#[trigger] out@[k]) == canonical(items@[k]@),
                decreases items@.len() - i,
            {
                proof {
                    lemma_view(*j);
                    let s = j@->Array_0;
                    assert(s[i as int] == items@[i as int]@);
                }
                out.push(to_value(&items[i]));
                i += 1;
            }
            proof {
                lemma_view(*j);
                assert(value_views(out@) =~= canonical(j@)->Array_0);
            }
            close_level(Level::Array(out))
        },
        Json::Object(fields) => {
            let mut out: Vec<(String, serde_json::Value)> = Vec::new();
            let mut i: usize = 0;
            while i < fields.len()
                invariant
                    *j == Json::Object(*fields),
                    i <= fields@.len(),
                    out@.len() == i,
                    forall|k: int|
                        0 <= k < i ==> (#[trigger] out@[k]).0@ == fields@[k].0@ && value_view(
                            out@[k].1,
                        ) == canonical(fields@[k].1@),
                decreases fields@.len() - i,
            {
                proof {
                    lemma_view(*j);
                    let s = j@->Object_0;
                    assert(s[i as int].1 == fields@[i as int].1@);
                }
                let value = to_value(&fields[i].1);
                out.push((fields[i].0.clone(), value));
                i += 1;
            }
            proof {
                lemma_view(*j);
                lemma_canonical_fields(field_views(fields@), member_views(out@));
            }
            close_level(Level::Object(out))
        },
    }
}

/// The document that `text` is, if it is one.
pub fn parse(text: &str) -> (r: Option<Json>)
    ensures
        opt_view(r) == json_parse(text@),
        r matches Some(j) ==> orderly(j@),
{
    match read_value(text) {
        Ok(v) => Some(from_value(v)),
        Err(_) => None,
    }
}

/// The text of the document. Where `durable` holds of it, reading the text gives
/// the document back.
pub fn to_text(j: &Json) -> (r: String)
    ensures
        r@ == written(j@),
        durable(j@) ==> json_parse(r@) == Some(j@),
{
    let v = to_value(j);
    proof {
        if orderly(j@) {
            lemma_canonical_orderly(j@);
        }
    }
    write_value(&v)
}

/// Putting the members of an orderly object in one after the other changes nothing.
proof fn lemma_canonical_fields_orderly(s: Seq<(Seq<char>, JsonView)>)
    requires
        keyed::increasing(s),
        forall|i: int| 0 <= i < s.len() ==> orderly((#[trigger] s[i]).1),
    ensures
        canonical_fields(s) == s,
    decreases s,
{
    if s.len() > 0 {
        let t = s.drop_last();
        assert(keyed::increasing(t)) by {
            assert forall|i: int, j: int| 0 <= i < j < t.len() implies keyed::before(
                (#[trigger] t[i]).0,
                (#[trigger] t[j]).0,
            ) by {
                assert(t[i] == s[i] && t[j] == s[j]);
            }
        }
        assert forall|i: int| 0 <= i < t.len() implies orderly((#[trigger] t[i]).1) by {
            assert(t[i] == s[i]);
        }
        lemma_canonical_fields_orderly(t);
        let last = s.last();
        assert(orderly(s[s.len() - 1].1));
        lemma_canonical_orderly(last.1);
        keyed::lemma_place(t, last.0);
        let p = keyed::place(t, last.0) as int;
        if p < t.len() {
            assert(t[p] == s[p]);
            assert(keyed::before(s[p].0, s[s.len() - 1].0));
        }
        assert(keyed::put(t, last.0, last.1) =~= s);
    }
}

/// An orderly document is in its canonical form.
pub proof fn lemma_canonical_orderly(v: JsonView)
    requires
        orderly(v),
    ensures
        canonical(v) == v,
    decreases v,
{
    match v {
        JsonView::Array(s) => {
            assert forall|i: int| 0 <= i < s.len() implies canonical(#[trigger] s[i]) == s[i] by {
                lemma_canonical_orderly(s[i]);
            }
            assert(canonical(v)->Array_0 =~= s);
        },
        JsonView::Object(s) => {
            lemma_canonical_fields_orderly(s);
        },
        _ => {},
    }
}

/// A member is found by its key whatever stands for its value.
proof fn lemma_same_keys(v: Seq<(String, Json)>, key: Seq<char>)
    ensures
        keyed::key_index(keyed::pairs(v), key) == keyed::key_index(field_views(v), key),
    decreases v.len(),
{
    let p = keyed::pairs(v);
    let f = field_views(v);
    if v.len() > 0 {
        lemma_same_keys(v.drop_first(), key);
        assert(keyed::pairs(v.drop_first()) =~= p.drop_first());
        assert(field_views(v.drop_first()) =~= f.drop_first());
    }
}

/// A key has the same place whatever stands for the values.
proof fn lemma_same_place(v: Seq<(String, Json)>, key: Seq<char>)
    ensures
        keyed::place(keyed::pairs(v), key) == keyed::place(field_views(v), key),
    decreases v.len(),
{
    let p = keyed::pairs(v);
    let f = field_views(v);
    if v.len() > 0 {
        lemma_same_place(v.drop_first(), key);
        assert(keyed::pairs(v.drop_first()) =~= p.drop_first());
        assert(field_views(v.drop_first()) =~= f.drop_first());
    }
}

/// Putting a member puts what it holds.
proof fn lemma_put_views(
    f0: Seq<(String, Json)>,
    f1: Seq<(String, Json)>,
    key: Seq<char>,
    value: Json,
)
    requires
        keyed::pairs(f1) == keyed::put(keyed::pairs(f0), key, value),
    ensures
        field_views(f1) == keyed::put(field_views(f0), key, value@),
{
    let p0 = keyed::pairs(f0);
    let p1 = keyed::pairs(f1);
    let q0 = field_views(f0);
    let q1 = keyed::put(q0, key, value@);
    lemma_same_place(f0, key);
    keyed::lemma_place(p0, key);
    let n = keyed::place(p0, key) as int;
    assert(n < f0.len() ==> p0[n].0 == q0[n].0);
    assert(f1.len() == p1.len());
    assert(q1.len() == p1.len());
    assert forall|i: int| 0 <= i < f1.len() implies (#[trigger] f1[i].0@, f1[i].1@) == q1[i] by {
        assert(p1[i] == (f1[i].0@, f1[i].1));
        if n < f0.len() && p0[n].0 == key {
            if i != n {
                assert(p1[i] == p0[i]);
            }
        } else {
            if i < n {
                assert(p1[i] == p0[i]);
            } else if i > n {
                assert(p1[i] == p0[i - 1]);
                assert(q1[i] == q0[i - 1]);
            }
        }
    }
    assert(field_views(f1) =~= q1);
}

impl Json {
    /// The member under `key`.
    pub fn get<'a>(&'a self, key: &str) -> (r: Option<&'a Json>)
        ensures
            match r {
                Some(x) => member(self@, key@) == Some(x@),
                None => member(self@, key@) is None,
            },
    {
        broadcast use lemma_view;

        match self {
            Json::Object(fields) => {
                proof {
                    lemma_same_keys(fields@, key@);
                    keyed::lemma_key_index(keyed::pairs(fields@), key@);
                }
                keyed::value_under(fields, key)
            },
            _ => None,
        }
    }

    /// The member under `key`, unless it is `null`.
    pub fn get_not_null<'a>(&'a self, key: &str) -> (r: Option<&'a Json>)
        ensures
            match r {
                Some(x) => member_not_null(self@, key@) == Some(x@),
                None => member_not_null(self@, key@) is None,
            },
    {
        broadcast use lemma_view;

        match self.get(key) {
            Some(Json::Null) => None,
            other => other,
        }
    }

    /// The text, where the document is one.
    pub fn as_str<'a>(&'a self) -> (r: Option<&'a str>)
        ensures
            match r {
                Some(x) => text_of(self@) == Some(x@),
                None => text_of(self@) is None,
            },
    {
        match self {
            Json::Text(s) => Some(s.as_str()),
            _ => None,
        }
    }

    /// The items, where the document is an array.
    pub fn as_array<'a>(&'a self) -> (r: Option<&'a Vec<Json>>)
        ensures
            match r {
                Some(x) => items_of(self@) == Some(views(x@)),
                None => items_of(self@) is None,
            },
    {
        broadcast use lemma_view;

        match self {
            Json::Array(items) => Some(items),
            _ => None,
        }
    }

    /// The members, where this is an object.
    pub fn as_object<'a>(&'a self) -> (r: Option<&'a Vec<(String, Json)>>)
        ensures
            match r {
                Some(x) => self@ == JsonView::Object(field_views(x@)),
                None => !(self@ is Object),
            },
    {
        broadcast use lemma_view;

        match self {
            Json::Object(fields) => Some(fields),
            _ => None,
        }
    }

    /// The truth value under `key`.
    pub fn get_bool(&self, key: &str) -> (r: Option<bool>)
        ensures
            r == member_bool(self@, key@),
    {
        broadcast use lemma_view;

        match self.get(key) {
            Some(Json::Bool(b)) => Some(*b),
            _ => None,
        }
    }

    /// The text under `key`.
    pub fn get_str<'a>(&'a self, key: &str) -> (r: Option<&'a str>)
        ensures
            match r {
                Some(x) => member_text(self@, key@) == Some(x@),
                None => member_text(self@, key@) is None,
            },
    {
        match self.get(key) {
            Some(x) => x.as_str(),
            None => None,
        }
    }

    /// The text under `key`, or none at all.
    pub fn get_str_or_empty(&self, key: &str) -> (r: String)
        ensures
            r@ == member_text_or_empty(self@, key@),
    {
        match self.get_str(key) {
            Some(x) => x.to_owned(),
            None => String::new(),
        }
    }

    /// The items under `key`.
    pub fn get_array<'a>(&'a self, key: &str) -> (r: Option<&'a Vec<Json>>)
        ensures
            match r {
                Some(x) => member_items(self@, key@) == Some(views(x@)),
                None => member_items(self@, key@) is None,
            },
    {
        match self.get(key) {
            Some(x) => x.as_array(),
            None => None,
        }
    }

    /// The `i64` under `key`.
    pub fn get_i64(&self, key: &str) -> (r: Option<i64>)
        ensures
            r == member_i64(self@, key@),
    {
        match self.get(key) {
            Some(Json::Number(n)) => n.as_i64(),
            _ => None,
        }
    }

    /// The `u64` under `key`.
    pub fn get_u64(&self, key: &str) -> (r: Option<u64>)
        ensures
            r == member_u64(self@, key@),
    {
        match self.get(key) {
            Some(Json::Number(n)) => n.as_u64(),
            _ => None,
        }
    }

    /// A copy of the document.
    pub fn duplicate(&self) -> (r: Json)
        ensures
            r@ == self@,
        decreases self@,
    {
        broadcast use lemma_view;

        match self {
            Json::Null => Json::Null,
            Json::Bool(b) => Json::Bool(*b),
            Json::Number(n) => Json::Number(n.clone()),
            Json::Text(s) => Json::Text(s.clone()),
            Json::Array(items) => {
                let mut out: Vec<Json> = Vec::new();
                let mut i: usize = 0;
                while i < items.len()
                    invariant
                        *self == Json::Array(*items),
                        i <= items@.len(),
                        out@.len() == i,
                        forall|k: int| 0 <= k < i ==> (#[trigger] out@[k])@ == items@[k]@,
                    decreases items@.len() - i,
                {
                    proof {
                        lemma_view(*self);
                        let s = self@->Array_0;
                        assert(s[i as int] == items@[i as int]@);
                    }
                    out.push(items[i].duplicate());
                    i += 1;
                }
                assert(views(out@) =~= views(items@));
                let r = Json::Array(out);
                proof {
                    lemma_view(r);
                }
                r
            },
            Json::Object(fields) => {
                let mut out: Vec<(String, Json)> = Vec::new();
                let mut i: usize = 0;
                while i < fields.len()
                    invariant
                        *self == Json::Object(*fields),
                        i <= fields@.len(),
                        out@.len() == i,
                        forall|k: int|
                            0 <= k < i ==> (#[trigger] out@[k]).0@ == fields@[k].0@ && out@[k].1@
                                == fields@[k].1@,
                    decreases fields@.len() - i,
                {
                    proof {
                        lemma_view(*self);
                        let s = self@->Object_0;
                        assert(s[i as int].1 == fields@[i as int].1@);
                    }
                    let value = fields[i].1.duplicate();
                    out.push((fields[i].0.clone(), value));
                    i += 1;
                }
                assert(field_views(out@) =~= field_views(fields@));
                let r = Json::Object(out);
                proof {
                    lemma_view(r);
                }
                r
            },
        }
    }

    /// The document of a text.
    pub fn text(s: &str) -> (r: Json)
        ensures
            r@ == JsonView::Text(s@),
    {
        Json::Text(s.to_owned())
    }

    /// The document of a truth value.
    pub fn truth(b: bool) -> (r: Json)
        ensures
            r@ == JsonView::Bool(b),
    {
        broadcast use lemma_view;

        Json::Bool(b)
    }

    /// The document of an integer.
    pub fn signed(i: i64) -> (r: Json)
        ensures
            r@ == JsonView::Number(integer(i)),
    {
        Json::Number(number_of(i))
    }

    /// The document of an unsigned integer.
    pub fn unsigned(u: u64) -> (r: Json)
        ensures
            r@ == JsonView::Number(NumberView::PosInt(u)),
    {
        Json::Number(number_of_unsigned(u))
    }

    /// The array of `items`.
    pub fn array(items: Vec<Json>) -> (r: Json)
        ensures
            r@ == JsonView::Array(views(items@)),
    {
        broadcast use lemma_view;

        Json::Array(items)
    }

    /// The object with the members `fields`.
    pub fn object(fields: Vec<(String, Json)>) -> (r: Json)
        ensures
            r@ == JsonView::Object(field_views(fields@)),
    {
        broadcast use lemma_view;

        Json::Object(fields)
    }

    /// The object without members.
    pub fn empty() -> (r: Json)
        ensures
            r@ == empty_object(),
    {
        let fields: Vec<(String, Json)> = Vec::new();
        assert(field_views(fields@) =~= Seq::<(Seq<char>, JsonView)>::empty());
        Json::object(fields)
    }

    /// The document with `value` under `key`.
    pub fn with(self, key: &str, value: Json) -> (r: Json)
        requires
            can_hold(self@),
        ensures
            r@ == with_member(self@, key@, value@),
    {
        let mut r = self;
        r.set(key, value);
        r
    }

    /// The array of texts.
    pub fn texts(items: &Vec<String>) -> (r: Json)
        ensures
            r@ == text_array(text::texts(items@)),
    {
        let mut out: Vec<Json> = Vec::new();
        let mut i: usize = 0;
        while i < items.len()
            invariant
                i <= items@.len(),
                out@.len() == i,
                forall|k: int|
                    0 <= k < i ==> (#[trigger] out@[k])@ == JsonView::Text(items@[k]@),
            decreases items@.len() - i,
        {
            out.push(Json::text(items[i].as_str()));
            i += 1;
        }
        proof {
            let t = text::texts(items@);
            assert(views(out@) =~= Seq::new(t.len(), |i: int| JsonView::Text(t[i])));
        }
        Json::array(out)
    }

    /// Puts `value` under `key` into an object, or into what was `null`.
    pub fn set(&mut self, key: &str, value: Json)
        requires
            can_hold(old(self)@),
        ensures
            final(self)@ == with_member(old(self)@, key@, value@),
    {
        broadcast use lemma_view;

        let ghost before = self@;
        let mut taken = Json::Null;
        std::mem::swap(self, &mut taken);
        let mut fields: Vec<(String, Json)> = match taken {
            Json::Object(f) => f,
            _ => Vec::new(),
        };
        let ghost f0 = fields@;
        proof {
            assert(before is Null ==> field_views(f0) =~= Seq::empty());
        }
        keyed::put_under(&mut fields, key, value);
        proof {
            lemma_put_views(f0, fields@, key@, value);
        }
        *self = Json::Object(fields);
    }
}

/// The object without members.
pub open spec fn empty_object() -> JsonView {
    JsonView::Object(Seq::empty())
}

/// The array of texts.
pub open spec fn text_array(items: Seq<Seq<char>>) -> JsonView {
    JsonView::Array(Seq::new(items.len(), |i: int| JsonView::Text(items[i])))
}

/// Whether a member can be put into `v`.
pub open spec fn can_hold(v: JsonView) -> bool {
    v is Object || v is Null
}

/// `v` with `value` under `key`.
pub open spec fn with_member(v: JsonView, key: Seq<char>, value: JsonView) -> JsonView {
    match v {
        JsonView::Object(fields) => JsonView::Object(keyed::put(fields, key, value)),
        _ => JsonView::Object(keyed::put(Seq::empty(), key, value)),
    }
}

/// Whether `v` is an object with its members in order.
pub open spec fn in_order(v: JsonView) -> bool {
    match v {
        JsonView::Object(fields) => keyed::increasing(fields),
        _ => false,
    }
}

/// A member that was put is found under its key, and under every other key what was
/// there.
pub proof fn lemma_with_member(v: JsonView, key: Seq<char>, value: JsonView)
    requires
        in_order(v),
    ensures
        in_order(with_member(v, key, value)),
        member(with_member(v, key, value), key) == Some(value),
        forall|k: Seq<char>|
            k != key ==> #[trigger] member(with_member(v, key, value), k) == member(v, k),
{
    if let JsonView::Object(fields) = v {
        keyed::lemma_put(fields, key, value);
    }
}

/// The bits of the double that the number `j` stands for.
pub fn bits_of(j: &Json) -> (r: Option<u64>)
    ensures
        r == number_as_double(j@),
{
    match j {
        Json::Number(n) => number_bits(n),
        _ => None,
    }
}

/// The bits of the double that `v` stands for, where it is a number.
pub open spec fn number_as_double(v: JsonView) -> Option<u64> {
    match v {
        JsonView::Number(n) => Some(double_bits(n)),
        _ => None,
    }
}

/// The integer that `v` stands for, where it is a number: a double is cast.
pub open spec fn number_as_int(v: JsonView) -> Option<i64> {
    match v {
        JsonView::Number(n) => match number_i64(n) {
            Some(i) => Some(i),
            None => Some(double_to_int(double_bits(n))),
        },
        _ => None,
    }
}

/// The integer that the number `j` stands for: a double is cast.
pub fn int_of(j: &Json) -> (r: Option<i64>)
    ensures
        r == number_as_int(j@),
{
    match j {
        Json::Number(n) => match n.as_i64() {
            Some(i) => Some(i),
            None => number_cast(n),
        },
        _ => None,
    }
}

/// What stands under a key is read as what it is, and not as anything else.
pub proof fn law_members_are_read(v: JsonView, key: Seq<char>, s: Seq<char>, b: bool, i: i64, u: u64)
    ensures
        member(v, key) == Some(JsonView::Text(s)) ==> member_text(v, key) == Some(s)
            && member_text_or_empty(v, key) == s && member_bool(v, key) is None && member_i64(
            v,
            key,
        ) is None && member_items(v, key) is None,
        member(v, key) == Some(JsonView::Bool(b)) ==> member_bool(v, key) == Some(b)
            && member_text(v, key) is None,
        member(v, key) == Some(JsonView::Number(integer(i))) ==> member_i64(v, key) == Some(i)
            && member_text(v, key) is None && (i >= 0 ==> member_u64(v, key) == Some(i as u64)) && (i
            < 0 ==> member_u64(v, key) is None),
        member(v, key) == Some(JsonView::Number(NumberView::PosInt(u))) ==> member_u64(v, key)
            == Some(u),
        member(v, key) is None ==> member_text(v, key) is None && member_text_or_empty(
            v,
            key,
        ).len() == 0 && member_bool(v, key) is None && member_i64(v, key) is None && member_u64(
            v,
            key,
        ) is None && member_items(v, key) is None && member_not_null(v, key) is None,
        member(v, key) == Some(JsonView::Null) ==> member_not_null(v, key) is None,
        member(v, key) is Some && member(v, key) != Some(JsonView::Null) ==> member_not_null(v, key)
            == member(v, key),
{
}

/// The members of an object in their canonical form are in order, and of members with one
/// key the last is there.
pub proof fn law_last_member_stays(s: Seq<(Seq<char>, JsonView)>, key: Seq<char>, k: int)
    ensures
        keyed::increasing(canonical_fields(s)),
        0 <= k < s.len() && s[k].0 == key && (forall|i: int|
            k < i < s.len() ==> (#[trigger] s[i]).0 != key) ==> keyed::lookup(
            canonical_fields(s),
            key,
        ) == Some(canonical(s[k].1)),
        (forall|i: int| 0 <= i < s.len() ==> (#[trigger] s[i]).0 != key) ==> keyed::lookup(
            canonical_fields(s),
            key,
        ) is None,
    decreases s.len(),
{
    if s.len() > 0 {
        let front = s.drop_last();
        let last = s.last();
        assert(last == s[s.len() - 1]);
        assert(forall|i: int| 0 <= i < front.len() ==> #[trigger] front[i] == s[i]);
        law_last_member_stays(front, key, k);
        keyed::lemma_put(canonical_fields(front), last.0, canonical(last.1));
    }
}

} // verus!
