//! JSON documents as values: total from a document to a value, partial back.
//!
//! The mapping is ours; parsing and printing the text is a JSON library's.
//! Object keys decode to strings, never keywords: a keyword would accept
//! `"a b"` and print as two forms, and type-strict `=` makes the wrong choice
//! fail at the lookup rather than subtly.

use crate::host::{io_fault, misuse, IoKind, IoOp};
use crate::text::{cat3, copy_str, nat_digits, push_nat_digits, push_str};
use crate::value::{
    float_eq, float_is_infinite, float_is_nan, is_infinite, is_nan, kind_name, kind_name_spec,
    lang_eq, lemma_find_key_skip, lemma_pairs_in_index, lemma_seq_eq_index, pair_found, find_key,
    StrObj, Value,
};
use crate::vm::Fault;
use std::rc::Rc;
use vstd::prelude::*;

verus! {

broadcast use vstd::std_specs::vec::axiom_vec_decreases_to_view;

/// A JSON document. A number is an integer when it is one and fits in an
/// `i64`, and a float otherwise; a float is held by its bit pattern.
#[derive(Debug)]
pub enum Json {
    Null,
    Bool(bool),
    Int(i64),
    Float(u64),
    Str(String),
    Array(Vec<Json>),
    /// Members in the order they are held: a map's entry order when encoding,
    /// and whatever order the decoder handed them over in when decoding.
    Object(Vec<(String, Json)>),
}

/// Why a value has no JSON spelling.
#[derive(Debug, PartialEq, Eq)]
pub enum JsonRefusal {
    /// `##NaN`, `##Inf` or `##-Inf`.
    NotFinite,
    /// An object key is not a string.
    KeyNotString,
    /// A value of a kind JSON has no counterpart for, by its kind name.
    Unrepresentable(&'static str),
}

/// `v` is the string `s`.
pub open spec fn is_text(v: Value, s: Seq<char>) -> bool {
    match v {
        Value::Str(t) => t.0@ == s,
        _ => false,
    }
}

/// `v` is what `j` decodes to: null is nil, numbers are numbers, text is a
/// string, an array is a vector, and an object is a map with string keys, in
/// document order.
pub open spec fn decodes_to(j: Json, v: Value) -> bool
    decreases j,
{
    match (j, v) {
        (Json::Null, Value::Nil) => true,
        (Json::Bool(b), Value::Bool(c)) => b == c,
        (Json::Int(i), Value::Int(k)) => i == k,
        (Json::Float(f), Value::Float(g)) => f == g,
        (Json::Str(s), Value::Str(t)) => t.0@ == s@,
        (Json::Array(xs), Value::Vec(ys)) => xs@.len() == ys@.len() && forall|i: int|
            0 <= i < xs@.len() ==> decodes_to(#[trigger] xs@[i], ys@[i]),
        (Json::Object(ps), Value::Dict(ys)) => ps@.len() == ys@.len() && forall|i: int|
            0 <= i < ps@.len() ==> is_text(ys@[i].0, (#[trigger] ps@[i]).0@) && decodes_to(ps@[i].1, ys@[i].1),
        _ => false,
    }
}

/// `j` is what `v` encodes as: a list or a vector is an array, and a map is
/// an object with the same members in the same order.
pub open spec fn encodes_as(v: Value, j: Json) -> bool
    decreases v,
{
    match (v, j) {
        (Value::Nil, Json::Null) => true,
        (Value::Bool(b), Json::Bool(c)) => b == c,
        (Value::Int(i), Json::Int(k)) => i == k,
        (Value::Float(f), Json::Float(g)) => f == g,
        (Value::Str(s), Json::Str(t)) => t@ == s.0@,
        (Value::List(xs), Json::Array(ys)) => xs@.len() == ys@.len() && forall|i: int|
            0 <= i < xs@.len() ==> encodes_as(#[trigger] xs@[i], ys@[i]),
        (Value::Vec(xs), Json::Array(ys)) => xs@.len() == ys@.len() && forall|i: int|
            0 <= i < xs@.len() ==> encodes_as(#[trigger] xs@[i], ys@[i]),
        (Value::Dict(ps), Json::Object(ys)) => ps@.len() == ys@.len() && forall|i: int|
            0 <= i < ps@.len() ==> is_text((#[trigger] ps@[i]).0, ys@[i].0@) && encodes_as(ps@[i].1, ys@[i].1),
        _ => false,
    }
}

/// The first reason, walking `v` in order, that it has no JSON spelling.
pub open spec fn refusal(v: Value) -> Option<JsonRefusal>
    decreases v, 1nat,
{
    match v {
        Value::Nil => None,
        Value::Bool(_) => None,
        Value::Int(_) => None,
        Value::Str(_) => None,
        Value::Float(b) => if float_is_nan(b) || float_is_infinite(b) {
            Some(JsonRefusal::NotFinite)
        } else {
            None
        },
        Value::List(l) => first_refusal(l@),
        Value::Vec(l) => first_refusal(l@),
        Value::Dict(m) => first_pair_refusal(m@),
        _ => Some(JsonRefusal::Unrepresentable(kind_name_spec(v))),
    }
}

pub open spec fn first_refusal(xs: Seq<Value>) -> Option<JsonRefusal>
    decreases xs, 0nat,
{
    if xs.len() == 0 {
        None
    } else {
        match refusal(xs[0]) {
            Some(r) => Some(r),
            None => first_refusal(xs.drop_first()),
        }
    }
}

pub open spec fn first_pair_refusal(ps: Seq<(Value, Value)>) -> Option<JsonRefusal>
    decreases ps, 0nat,
{
    if ps.len() == 0 {
        None
    } else if !(ps[0].0 is Str) {
        Some(JsonRefusal::KeyNotString)
    } else {
        match refusal(ps[0].1) {
            Some(r) => Some(r),
            None => first_pair_refusal(ps.drop_first()),
        }
    }
}

/// A document to a value. Total: every document is some value.
#[verifier::loop_isolation(false)]
pub fn from_json(j: &Json) -> (r: Value)
    ensures
        decodes_to(*j, r),
    decreases *j,
{
    match j {
        Json::Null => Value::Nil,
        Json::Bool(b) => Value::Bool(*b),
        Json::Int(i) => Value::Int(*i),
        Json::Float(f) => Value::Float(*f),
        Json::Str(s) => Value::Str(Rc::new(StrObj(copy_str(s.as_str())))),
        Json::Array(xs) => {
            let mut out: Vec<Value> = Vec::new();
            let mut i: usize = 0;
            while i < xs.len()
                invariant
                    i <= xs@.len(),
                    out@.len() == i,
                    forall|k: int| 0 <= k < i ==> decodes_to(#[trigger] xs@[k], out@[k]),
                decreases xs@.len() - i,
            {
                out.push(from_json(&xs[i]));
                i = i + 1;
            }
            Value::Vec(Rc::new(out))
        },
        Json::Object(ps) => {
            let mut out: Vec<(Value, Value)> = Vec::new();
            let mut i: usize = 0;
            while i < ps.len()
                invariant
                    i <= ps@.len(),
                    out@.len() == i,
                    forall|k: int|
                        0 <= k < i ==> is_text(out@[k].0, (#[trigger] ps@[k]).0@) && decodes_to(
                            ps@[k].1,
                            out@[k].1,
                        ),
                decreases ps@.len() - i,
            {
                let key = Value::Str(Rc::new(StrObj(copy_str(ps[i].0.as_str()))));
                let value = from_json(&ps[i].1);
                out.push((key, value));
                i = i + 1;
            }
            Value::Dict(Rc::new(out))
        },
    }
}

/// A value to a document, or the first reason it has none.
pub fn to_json(v: &Value) -> (r: Result<Json, JsonRefusal>)
    ensures
        match refusal(*v) {
            Some(e) => r == Err::<Json, JsonRefusal>(e),
            None => r matches Ok(j) && encodes_as(*v, j),
        },
    decreases *v, 1nat,
{
    match v {
        Value::Nil => Ok(Json::Null),
        Value::Bool(b) => Ok(Json::Bool(*b)),
        Value::Int(i) => Ok(Json::Int(*i)),
        Value::Float(f) => if is_nan(*f) || is_infinite(*f) {
            Err(JsonRefusal::NotFinite)
        } else {
            Ok(Json::Float(*f))
        },
        Value::Str(s) => Ok(Json::Str(copy_str(s.0.as_str()))),
        Value::List(l) => match to_json_all(l) {
            Ok(xs) => Ok(Json::Array(xs)),
            Err(e) => Err(e),
        },
        Value::Vec(l) => match to_json_all(l) {
            Ok(xs) => Ok(Json::Array(xs)),
            Err(e) => Err(e),
        },
        Value::Dict(m) => match to_json_pairs(m) {
            Ok(ps) => Ok(Json::Object(ps)),
            Err(e) => Err(e),
        },
        _ => Err(JsonRefusal::Unrepresentable(kind_name(v))),
    }
}

fn to_json_all(vs: &Vec<Value>) -> (r: Result<Vec<Json>, JsonRefusal>)
    ensures
        match first_refusal(vs@) {
            Some(e) => r == Err::<Vec<Json>, JsonRefusal>(e),
            None => r matches Ok(js) && js@.len() == vs@.len() && forall|i: int|
                0 <= i < vs@.len() ==> encodes_as(#[trigger] vs@[i], js@[i]),
        },
    decreases vs@, 0nat,
{
    let mut out: Vec<Json> = Vec::new();
    let mut i: usize = 0;
    proof {
        assert(vs@.skip(0) =~= vs@);
    }
    while i < vs.len()
        invariant
            i <= vs@.len(),
            first_refusal(vs@.skip(i as int)) == first_refusal(vs@),
            out@.len() == i,
            forall|k: int| 0 <= k < i ==> encodes_as(#[trigger] vs@[k], out@[k]),
        decreases vs@.len() - i,
    {
        proof {
            assert(vs@.skip(i as int)[0] == vs@[i as int]);
            assert(vs@.skip(i as int).drop_first() =~= vs@.skip(i + 1));
        }
        match to_json(&vs[i]) {
            Ok(j) => out.push(j),
            Err(e) => {
                return Err(e);
            },
        }
        i = i + 1;
    }
    proof {
        assert(vs@.skip(i as int).len() == 0);
    }
    Ok(out)
}

fn to_json_pairs(ps: &Vec<(Value, Value)>) -> (r: Result<Vec<(String, Json)>, JsonRefusal>)
    ensures
        match first_pair_refusal(ps@) {
            Some(e) => r == Err::<Vec<(String, Json)>, JsonRefusal>(e),
            None => r matches Ok(js) && js@.len() == ps@.len() && forall|i: int|
                0 <= i < ps@.len() ==> is_text((#[trigger] ps@[i]).0, js@[i].0@) && encodes_as(
                    ps@[i].1,
                    js@[i].1,
                ),
        },
    decreases ps@, 0nat,
{
    let mut out: Vec<(String, Json)> = Vec::new();
    let mut i: usize = 0;
    proof {
        assert(ps@.skip(0) =~= ps@);
    }
    while i < ps.len()
        invariant
            i <= ps@.len(),
            first_pair_refusal(ps@.skip(i as int)) == first_pair_refusal(ps@),
            out@.len() == i,
            forall|k: int|
                0 <= k < i ==> is_text((#[trigger] ps@[k]).0, out@[k].0@) && encodes_as(ps@[k].1, out@[k].1),
        decreases ps@.len() - i,
    {
        proof {
            assert(ps@.skip(i as int)[0] == ps@[i as int]);
            assert(ps@.skip(i as int).drop_first() =~= ps@.skip(i + 1));
        }
        let key = match &ps[i].0 {
            Value::Str(s) => copy_str(s.0.as_str()),
            _ => {
                return Err(JsonRefusal::KeyNotString);
            },
        };
        match to_json(&ps[i].1) {
            Ok(j) => out.push((key, j)),
            Err(e) => {
                return Err(e);
            },
        }
        i = i + 1;
    }
    proof {
        assert(ps@.skip(i as int).len() == 0);
    }
    Ok(out)
}

/// The fault a refusal raises: an `:io-error` with `:kind :invalid-data` for
/// what JSON cannot spell, and a type fault for a value of the wrong kind.
pub fn refusal_fault(e: JsonRefusal) -> (f: Fault)
    ensures
        match e {
            JsonRefusal::NotFinite => f matches Fault::Io { op: IoOp::Encode, path: None, kind: IoKind::InvalidData, msg }
                && msg@ == "JSON has no spelling for ##NaN, ##Inf, or ##-Inf"@,
            JsonRefusal::KeyNotString => f matches Fault::Io { op: IoOp::Encode, path: None, kind: IoKind::InvalidData, msg }
                && msg@ == "a JSON object key must be a string"@,
            JsonRefusal::Unrepresentable(k) => f matches Fault::Vm { kind: crate::vm::Kind::Type, msg } && msg@
                == "`json/encode` cannot represent a "@ + k@,
        },
{
    match e {
        JsonRefusal::NotFinite => io_fault(
            IoOp::Encode,
            IoKind::InvalidData,
            copy_str("JSON has no spelling for ##NaN, ##Inf, or ##-Inf"),
        ),
        JsonRefusal::KeyNotString => io_fault(
            IoOp::Encode,
            IoKind::InvalidData,
            copy_str("a JSON object key must be a string"),
        ),
        JsonRefusal::Unrepresentable(k) => {
            let mut msg = copy_str("`json/encode` cannot represent a ");
            push_str(&mut msg, k);
            misuse(msg)
        },
    }
}

/// The fault a document that does not parse raises, naming where in the
/// document the parser stopped.
pub fn decode_fault(line: usize, column: usize) -> (f: Fault)
    ensures
        f matches Fault::Io { op: IoOp::Decode, path: None, kind: IoKind::InvalidData, msg } && msg@
            == "not valid JSON at line "@ + nat_digits(line as nat) + ", column "@ + nat_digits(column as nat),
{
    let mut msg = copy_str("not valid JSON at line ");
    push_nat_digits(&mut msg, line as u128);
    push_str(&mut msg, ", column ");
    push_nat_digits(&mut msg, column as u128);
    io_fault(IoOp::Decode, IoKind::InvalidData, msg)
}

// --- the round trip ----------------------------------------------------------------

/// Every map within `v` has keys that differ as language values.
pub open spec fn distinct_keys(v: Value) -> bool
    decreases v,
{
    match v {
        Value::List(l) => forall|i: int| 0 <= i < l@.len() ==> distinct_keys(#[trigger] l@[i]),
        Value::Vec(l) => forall|i: int| 0 <= i < l@.len() ==> distinct_keys(#[trigger] l@[i]),
        Value::Dict(m) => (forall|i: int, k: int|
            0 <= i < k < m@.len() ==> !lang_eq(#[trigger] m@[i].0, #[trigger] m@[k].0)) && forall|i: int|
            0 <= i < m@.len() ==> distinct_keys(#[trigger] m@[i].1),
        _ => true,
    }
}

proof fn lemma_first_refusal_none(xs: Seq<Value>)
    requires
        first_refusal(xs) is None,
    ensures
        forall|i: int| 0 <= i < xs.len() ==> refusal(#[trigger] xs[i]) is None,
    decreases xs.len(),
{
    if xs.len() > 0 {
        lemma_first_refusal_none(xs.drop_first());
        assert forall|i: int| 0 <= i < xs.len() implies refusal(#[trigger] xs[i]) is None by {
            if i > 0 {
                assert(xs.drop_first()[i - 1] == xs[i]);
            }
        }
    }
}

proof fn lemma_first_pair_refusal_none(ps: Seq<(Value, Value)>)
    requires
        first_pair_refusal(ps) is None,
    ensures
        forall|i: int| 0 <= i < ps.len() ==> (#[trigger] ps[i]).0 is Str && refusal(ps[i].1) is None,
    decreases ps.len(),
{
    if ps.len() > 0 {
        lemma_first_pair_refusal_none(ps.drop_first());
        assert forall|i: int| 0 <= i < ps.len() implies (#[trigger] ps[i]).0 is Str && refusal(ps[i].1) is None by {
            if i > 0 {
                assert(ps.drop_first()[i - 1] == ps[i]);
            }
        }
    }
}

/// Encoding a value and decoding the document gives back a value the
/// language calls equal to it: `(= doc (json/decode (json/encode doc)))`.
/// A list comes back a vector, which `=` does not tell apart. Where a map
/// holds two keys the language calls equal, `=` does not hold even of the
/// map and itself, so such maps are left out.
pub proof fn lemma_json_round_trip(v: Value, j: Json, w: Value)
    requires
        refusal(v) is None,
        distinct_keys(v),
        encodes_as(v, j),
        decodes_to(j, w),
    ensures
        lang_eq(v, w),
    decreases v,
{
    match v {
        Value::List(l) => {
            let js = j->Array_0;
            let ys = w->Vec_0;
            lemma_first_refusal_none(l@);
            assert forall|i: int| 0 <= i < l@.len() implies lang_eq(#[trigger] l@[i], ys@[i]) by {
                lemma_json_round_trip(l@[i], js@[i], ys@[i]);
            }
            lemma_seq_eq_index(l@, ys@);
        },
        Value::Vec(l) => {
            let js = j->Array_0;
            let ys = w->Vec_0;
            lemma_first_refusal_none(l@);
            assert forall|i: int| 0 <= i < l@.len() implies lang_eq(#[trigger] l@[i], ys@[i]) by {
                lemma_json_round_trip(l@[i], js@[i], ys@[i]);
            }
            lemma_seq_eq_index(l@, ys@);
        },
        Value::Dict(m) => {
            let ps = j->Object_0;
            let ys = w->Dict_0;
            lemma_first_pair_refusal_none(m@);
            assert forall|i: int| 0 <= i < m@.len() implies pair_found(#[trigger] m@[i], ys@) by {
                let k = m@[i].0;
                assert(is_text(k, ps@[i].0@));
                assert(is_text(ys@[i].0, ps@[i].0@));
                assert(lang_eq(k, ys@[i].0));
                assert forall|x: int| 0 <= x < i implies !lang_eq(k, #[trigger] ys@[x].0) by {
                    assert(is_text(m@[x].0, ps@[x].0@));
                    assert(is_text(ys@[x].0, ps@[x].0@));
                    assert(!lang_eq(m@[x].0, m@[i].0));
                }
                lemma_find_key_skip(k, ys@, i);
                assert(ys@.skip(i)[0] == ys@[i]);
                assert(find_key(k, ys@.skip(i)) == Some(0int));
                lemma_json_round_trip(m@[i].1, ps@[i].1, ys@[i].1);
            }
            lemma_pairs_in_index(m@, ys@);
        },
        _ => {},
    }
}

} // verus!
