//! Values. Forms *are* values; what makes a value a form is the span origins
//! travelling beside it, not its representation.

use crate::error::{Span, SpanOrigin};
use crate::text::{
    byte_offset, chars_of, copy_str, lemma_byte_offset_mono, lemma_byte_offset_step,
    lemma_utf8_len_encoding, nat_digits, push_nat_digits, push_str, str_eq, utf8_len, width_of,
};
use std::rc::Rc;
use vstd::prelude::*;
use vstd::std_specs::cmp::PartialEqSpecImpl;

verus! {

broadcast use vstd::std_specs::vec::axiom_vec_decreases_to_view;

#[derive(Clone, Copy, PartialEq, Eq, Hash, Debug, Structural)]
pub struct SymId(pub u32);

#[derive(Clone, Copy, PartialEq, Eq, Hash, Debug, Structural)]
pub struct KwId(pub u32);

/// Arena indices with a generation, not pointers.
#[derive(Clone, Copy, PartialEq, Eq, Hash, Debug, Structural)]
pub struct CellId(pub u32, pub u32);

#[derive(Clone, Copy, PartialEq, Eq, Hash, Debug, Structural)]
pub struct HandleId(pub u32, pub u32);

#[derive(Clone, Copy, PartialEq, Eq, Hash, Debug, Structural)]
pub struct BufferId(pub u32, pub u32);

/// An index into the VM's native function table.
#[derive(Clone, Copy, PartialEq, Eq, Hash, Debug, Structural)]
pub struct NativeId(pub u32);

#[derive(Debug)]
pub struct StrObj(pub String);

#[derive(Debug)]
pub struct BytesObj(pub Vec<u8>);

/// A native function is a kind of closure, so it is called through the
/// ordinary `Call`. A bytecode closure carries the identity it was given when
/// it was created: two closures are the same function exactly when they are
/// the same creation, which is what `=` compares on functions.
#[derive(Debug)]
pub enum Closure {
    Fn { proto: u32, captures: Rc<Vec<Value>>, id: u64 },
    Native(NativeId),
}

/// A float is held as its IEEE-754 bit pattern: the bits are the one
/// spelling that cannot normalise `-0.0` or `##NaN` into something else.
#[derive(Debug)]
pub enum Value {
    Nil,
    Bool(bool),
    Int(i64),
    Float(u64),
    Str(Rc<StrObj>),
    Bytes(Rc<BytesObj>),
    Sym(SymId),
    Keyword(KwId),
    List(Rc<Vec<Value>>),
    Vec(Rc<Vec<Value>>),
    /// Insertion-ordered pairs, never two with equal keys.
    Dict(Rc<Vec<(Value, Value)>>),
    Fn(Rc<Closure>),
    Cell(CellId),
    Handle(HandleId),
    Buffer(BufferId),
}

impl Clone for StrObj {
    fn clone(&self) -> (r: StrObj)
        ensures
            r.0@ == self.0@,
    {
        StrObj(self.0.clone())
    }
}

impl Clone for Value {
    fn clone(&self) -> (r: Value)
        ensures
            r == *self,
    {
        match self {
            Value::Nil => Value::Nil,
            Value::Bool(b) => Value::Bool(*b),
            Value::Int(i) => Value::Int(*i),
            Value::Float(f) => Value::Float(*f),
            Value::Str(s) => Value::Str(s.clone()),
            Value::Bytes(b) => Value::Bytes(b.clone()),
            Value::Sym(s) => Value::Sym(*s),
            Value::Keyword(k) => Value::Keyword(*k),
            Value::List(l) => Value::List(l.clone()),
            Value::Vec(v) => Value::Vec(v.clone()),
            Value::Dict(m) => Value::Dict(m.clone()),
            Value::Fn(f) => Value::Fn(f.clone()),
            Value::Cell(c) => Value::Cell(*c),
            Value::Handle(h) => Value::Handle(*h),
            Value::Buffer(b) => Value::Buffer(*b),
        }
    }
}


// --- Rust's `==` on values -------------------------------------------------------

/// Rust's `==` on values, which is not the language's: floats by IEEE rules
/// and never equal to integers, sequences only within one representation,
/// maps pair by pair in order, and no identity-carrying value equal to
/// anything. It is what a test compares read values with.
pub open spec fn struct_eq(a: Value, b: Value) -> bool
    decreases a,
{
    match (a, b) {
        (Value::Nil, Value::Nil) => true,
        (Value::Bool(x), Value::Bool(y)) => x == y,
        (Value::Int(x), Value::Int(y)) => x == y,
        (Value::Float(x), Value::Float(y)) => float_eq(x, y),
        (Value::Str(x), Value::Str(y)) => x.0@ == y.0@,
        (Value::Bytes(x), Value::Bytes(y)) => x.0@ == y.0@,
        (Value::Sym(x), Value::Sym(y)) => x == y,
        (Value::Keyword(x), Value::Keyword(y)) => x == y,
        (Value::List(x), Value::List(y)) => x@.len() == y@.len() && forall|i: int|
            0 <= i < x@.len() ==> struct_eq(#[trigger] x@[i], y@[i]),
        (Value::Vec(x), Value::Vec(y)) => x@.len() == y@.len() && forall|i: int|
            0 <= i < x@.len() ==> struct_eq(#[trigger] x@[i], y@[i]),
        (Value::Dict(x), Value::Dict(y)) => x@.len() == y@.len() && forall|i: int|
            0 <= i < x@.len() ==> struct_eq((#[trigger] x@[i]).0, y@[i].0) && struct_eq(x@[i].1, y@[i].1),
        _ => false,
    }
}

fn struct_eq_values(a: &Vec<Value>, b: &Vec<Value>) -> (r: bool)
    ensures
        r == (a@.len() == b@.len() && forall|i: int| 0 <= i < a@.len() ==> struct_eq(#[trigger] a@[i], b@[i])),
    decreases a@,
{
    if a.len() != b.len() {
        return false;
    }
    let mut i: usize = 0;
    while i < a.len()
        invariant
            a@.len() == b@.len(),
            i <= a@.len(),
            forall|k: int| 0 <= k < i ==> struct_eq(#[trigger] a@[k], b@[k]),
        decreases a@.len() - i,
    {
        if !struct_eq_value(&a[i], &b[i]) {
            return false;
        }
        i = i + 1;
    }
    true
}

fn struct_eq_pairs(a: &Vec<(Value, Value)>, b: &Vec<(Value, Value)>) -> (r: bool)
    ensures
        r == (a@.len() == b@.len() && forall|i: int|
            0 <= i < a@.len() ==> struct_eq((#[trigger] a@[i]).0, b@[i].0) && struct_eq(a@[i].1, b@[i].1)),
    decreases a@,
{
    if a.len() != b.len() {
        return false;
    }
    let mut i: usize = 0;
    while i < a.len()
        invariant
            a@.len() == b@.len(),
            i <= a@.len(),
            forall|k: int| 0 <= k < i ==> struct_eq((#[trigger] a@[k]).0, b@[k].0) && struct_eq(a@[k].1, b@[k].1),
        decreases a@.len() - i,
    {
        if !struct_eq_value(&a[i].0, &b[i].0) || !struct_eq_value(&a[i].1, &b[i].1) {
            return false;
        }
        i = i + 1;
    }
    true
}

fn struct_eq_value(a: &Value, b: &Value) -> (r: bool)
    ensures
        r == struct_eq(*a, *b),
    decreases *a,
{
    match (a, b) {
        (Value::Nil, Value::Nil) => true,
        (Value::Bool(x), Value::Bool(y)) => *x == *y,
        (Value::Int(x), Value::Int(y)) => *x == *y,
        (Value::Float(x), Value::Float(y)) => floats_equal(*x, *y),
        (Value::Str(x), Value::Str(y)) => str_eq(x.0.as_str(), y.0.as_str()),
        (Value::Bytes(x), Value::Bytes(y)) => bytes_eq(&x.0, &y.0),
        (Value::Sym(x), Value::Sym(y)) => x.0 == y.0,
        (Value::Keyword(x), Value::Keyword(y)) => x.0 == y.0,
        (Value::List(x), Value::List(y)) => struct_eq_values(x, y),
        (Value::Vec(x), Value::Vec(y)) => struct_eq_values(x, y),
        (Value::Dict(x), Value::Dict(y)) => struct_eq_pairs(x, y),
        _ => false,
    }
}

impl PartialEq for Value {
    fn eq(&self, other: &Value) -> (r: bool) {
        struct_eq_value(self, other)
    }
}

impl PartialEqSpecImpl for Value {
    open spec fn obeys_eq_spec() -> bool {
        true
    }

    open spec fn eq_spec(&self, other: &Value) -> bool {
        struct_eq(*self, *other)
    }
}

/// `Rc::ptr_eq`: whether two pointers name one allocation. One allocation
/// holds one value.
#[verifier::external_body]
pub(crate) fn same_object<T>(a: &Rc<T>, b: &Rc<T>) -> (r: bool)
    ensures
        r ==> *a == *b,
{
    Rc::ptr_eq(a, b)
}

/// A copy of a value vector.
pub fn copy_values(v: &Vec<Value>) -> (r: Vec<Value>)
    ensures
        r@ == v@,
{
    let mut out: Vec<Value> = Vec::new();
    let mut i: usize = 0;
    while i < v.len()
        invariant
            i <= v@.len(),
            out@ == v@.take(i as int),
        decreases v@.len() - i,
    {
        proof {
            assert(v@.take(i + 1) =~= v@.take(i as int).push(v@[i as int]));
        }
        out.push(v[i].clone());
        i = i + 1;
    }
    proof {
        assert(v@.take(v@.len() as int) =~= v@);
    }
    out
}

/// A copy of a byte vector.
pub fn copy_bytes(v: &Vec<u8>) -> (r: Vec<u8>)
    ensures
        r@ == v@,
{
    let mut out: Vec<u8> = Vec::new();
    let mut i: usize = 0;
    while i < v.len()
        invariant
            i <= v@.len(),
            out@ == v@.take(i as int),
        decreases v@.len() - i,
    {
        proof {
            assert(v@.take(i + 1) =~= v@.take(i as int).push(v@[i as int]));
        }
        out.push(v[i]);
        i = i + 1;
    }
    proof {
        assert(v@.take(v@.len() as int) =~= v@);
    }
    out
}

/// A copy of a pair vector.
pub fn copy_pairs(v: &Vec<(Value, Value)>) -> (r: Vec<(Value, Value)>)
    ensures
        r@ == v@,
{
    let mut out: Vec<(Value, Value)> = Vec::new();
    let mut i: usize = 0;
    while i < v.len()
        invariant
            i <= v@.len(),
            out@ == v@.take(i as int),
        decreases v@.len() - i,
    {
        proof {
            assert(v@.take(i + 1) =~= v@.take(i as int).push(v@[i as int]));
        }
        out.push((v[i].0.clone(), v[i].1.clone()));
        i = i + 1;
    }
    proof {
        assert(v@.take(v@.len() as int) =~= v@);
    }
    out
}

// --- floats as bits ----------------------------------------------------------

pub open spec fn float_is_nan(x: u64) -> bool {
    (x & 0x7ff0_0000_0000_0000) == 0x7ff0_0000_0000_0000 && (x & 0x000f_ffff_ffff_ffff) != 0
}

pub open spec fn float_is_zero(x: u64) -> bool {
    (x & 0x7fff_ffff_ffff_ffff) == 0
}

pub open spec fn float_is_infinite(x: u64) -> bool {
    (x & 0x7fff_ffff_ffff_ffff) == 0x7ff0_0000_0000_0000
}

/// IEEE equality: `##NaN` equals nothing, `-0.0` equals `0.0`, everything
/// else is equal exactly when its bits are.
pub open spec fn float_eq(x: u64, y: u64) -> bool {
    !float_is_nan(x) && !float_is_nan(y) && (x == y || (float_is_zero(x) && float_is_zero(y)))
}

pub const POS_INFINITY_BITS: u64 = 0x7ff0_0000_0000_0000;

pub const NEG_INFINITY_BITS: u64 = 0xfff0_0000_0000_0000;

/// The NaN Rust's `f64::NAN` is.
pub const NAN_BITS: u64 = 0x7ff8_0000_0000_0000;

pub fn is_nan(x: u64) -> (r: bool)
    ensures
        r == float_is_nan(x),
{
    (x & 0x7ff0_0000_0000_0000) == 0x7ff0_0000_0000_0000 && (x & 0x000f_ffff_ffff_ffff) != 0
}

pub fn is_infinite(x: u64) -> (r: bool)
    ensures
        r == float_is_infinite(x),
{
    (x & 0x7fff_ffff_ffff_ffff) == 0x7ff0_0000_0000_0000
}

pub fn floats_equal(x: u64, y: u64) -> (r: bool)
    ensures
        r == float_eq(x, y),
{
    !is_nan(x) && !is_nan(y) && (x == y || ((x & 0x7fff_ffff_ffff_ffff) == 0 && (y
        & 0x7fff_ffff_ffff_ffff) == 0))
}

// --- language equality -------------------------------------------------------

/// Language `=`: structural, crossing list and vector, never crossing `Int`
/// and `Float`. Maps compare as sets of pairs; functions by identity.
pub open spec fn lang_eq(a: Value, b: Value) -> bool
    decreases a, 0nat, 0nat,
{
    match (a, b) {
        (Value::Nil, Value::Nil) => true,
        (Value::Bool(x), Value::Bool(y)) => x == y,
        (Value::Int(x), Value::Int(y)) => x == y,
        (Value::Float(x), Value::Float(y)) => float_eq(x, y),
        (Value::Str(x), Value::Str(y)) => x.0@ == y.0@,
        (Value::Bytes(x), Value::Bytes(y)) => x.0@ == y.0@,
        (Value::Sym(x), Value::Sym(y)) => x == y,
        (Value::Keyword(x), Value::Keyword(y)) => x == y,
        (Value::List(x), Value::List(y)) => seq_eq(x@, y@),
        (Value::List(x), Value::Vec(y)) => seq_eq(x@, y@),
        (Value::Vec(x), Value::List(y)) => seq_eq(x@, y@),
        (Value::Vec(x), Value::Vec(y)) => seq_eq(x@, y@),
        (Value::Dict(x), Value::Dict(y)) => x@.len() == y@.len() && pairs_in(x@, y@),
        (Value::Fn(x), Value::Fn(y)) => same_fn(*x, *y),
        (Value::Cell(x), Value::Cell(y)) => x == y,
        (Value::Handle(x), Value::Handle(y)) => x == y,
        (Value::Buffer(x), Value::Buffer(y)) => x == y,
        _ => false,
    }
}

pub open spec fn same_fn(x: Closure, y: Closure) -> bool {
    match (x, y) {
        (Closure::Fn { id: i, .. }, Closure::Fn { id: j, .. }) => i == j,
        (Closure::Native(i), Closure::Native(j)) => i == j,
        _ => false,
    }
}

/// Element-wise `lang_eq` over two sequences of the same length.
pub open spec fn seq_eq(xs: Seq<Value>, ys: Seq<Value>) -> bool
    decreases xs, 0nat, 0nat,
{
    if xs.len() == 0 {
        ys.len() == 0
    } else {
        ys.len() > 0 && lang_eq(xs[0], ys[0]) && seq_eq(xs.drop_first(), ys.drop_first())
    }
}

/// Every pair of `xs` finds its key in `ys`, and the value there is equal.
pub open spec fn pairs_in(xs: Seq<(Value, Value)>, ys: Seq<(Value, Value)>) -> bool
    decreases xs, 0nat, 0nat,
{
    if xs.len() == 0 {
        true
    } else {
        (match find_key(xs[0].0, ys) {
            Some(j) => 0 <= j < ys.len() && lang_eq(xs[0].1, ys[j].1),
            None => false,
        }) && pairs_in(xs.drop_first(), ys)
    }
}

/// The index of the first pair in `ys` whose key is `lang_eq` to `k`.
pub open spec fn find_key(k: Value, ys: Seq<(Value, Value)>) -> Option<int>
    decreases k, 1nat, ys.len(),
{
    if ys.len() == 0 {
        None
    } else if lang_eq(k, ys[0].0) {
        Some(0)
    } else {
        match find_key(k, ys.drop_first()) {
            Some(j) => Some(j + 1),
            None => None,
        }
    }
}

pub proof fn lemma_find_key_range(k: Value, ys: Seq<(Value, Value)>)
    ensures
        find_key(k, ys) matches Some(j) ==> 0 <= j < ys.len() && lang_eq(k, ys[j].0),
        find_key(k, ys) is None ==> forall|j: int|
            0 <= j < ys.len() ==> !lang_eq(k, #[trigger] ys[j].0),
    decreases ys.len(),
{
    if ys.len() > 0 {
        lemma_find_key_range(k, ys.drop_first());
        if find_key(k, ys) is None {
            assert forall|j: int| 0 <= j < ys.len() implies !lang_eq(k, #[trigger] ys[j].0) by {
                if j > 0 {
                    assert(ys.drop_first()[j - 1] == ys[j]);
                }
            }
        }
    }
}

/// Scanning `ys` from `i` on, with nothing before `i` matching, finds what a
/// scan from the start finds.
pub proof fn lemma_find_key_skip(k: Value, ys: Seq<(Value, Value)>, i: int)
    requires
        0 <= i <= ys.len(),
        forall|j: int| 0 <= j < i ==> !lang_eq(k, #[trigger] ys[j].0),
    ensures
        find_key(k, ys) == (match find_key(k, ys.skip(i)) {
            Some(j) => Some(j + i),
            None => None::<int>,
        }),
    decreases i,
{
    if i > 0 {
        assert(!lang_eq(k, ys[0].0));
        assert forall|j: int| 0 <= j < i - 1 implies !lang_eq(k, #[trigger] ys.drop_first()[j].0) by {
            assert(ys.drop_first()[j] == ys[j + 1]);
        }
        lemma_find_key_skip(k, ys.drop_first(), i - 1);
        assert(ys.drop_first().skip(i - 1) =~= ys.skip(i));
    } else {
        assert(ys.skip(0) =~= ys);
    }
}

pub proof fn lemma_seq_eq_index(xs: Seq<Value>, ys: Seq<Value>)
    ensures
        seq_eq(xs, ys) <==> (xs.len() == ys.len() && forall|i: int|
            0 <= i < xs.len() ==> lang_eq(#[trigger] xs[i], ys[i])),
    decreases xs.len(),
{
    if xs.len() > 0 && ys.len() > 0 {
        lemma_seq_eq_index(xs.drop_first(), ys.drop_first());
        if xs.len() == ys.len() && forall|i: int|
            0 <= i < xs.len() ==> lang_eq(#[trigger] xs[i], ys[i]) {
            assert forall|i: int| 0 <= i < xs.drop_first().len() implies lang_eq(
                #[trigger] xs.drop_first()[i],
                ys.drop_first()[i],
            ) by {
                assert(xs.drop_first()[i] == xs[i + 1]);
                assert(ys.drop_first()[i] == ys[i + 1]);
            }
            assert(lang_eq(xs[0], ys[0]));
        }
        if seq_eq(xs, ys) {
            assert forall|i: int| 0 <= i < xs.len() implies lang_eq(#[trigger] xs[i], ys[i]) by {
                if i > 0 {
                    assert(xs.drop_first()[i - 1] == xs[i]);
                    assert(ys.drop_first()[i - 1] == ys[i]);
                }
            }
        }
    }
}

pub proof fn lemma_pairs_in_index(xs: Seq<(Value, Value)>, ys: Seq<(Value, Value)>)
    ensures
        pairs_in(xs, ys) <==> forall|i: int|
            0 <= i < xs.len() ==> pair_found(#[trigger] xs[i], ys),
    decreases xs.len(),
{
    if xs.len() > 0 {
        lemma_pairs_in_index(xs.drop_first(), ys);
        if forall|i: int| 0 <= i < xs.len() ==> pair_found(#[trigger] xs[i], ys) {
            assert(pair_found(xs[0], ys));
            assert forall|i: int| 0 <= i < xs.drop_first().len() implies pair_found(
                #[trigger] xs.drop_first()[i],
                ys,
            ) by {
                assert(xs.drop_first()[i] == xs[i + 1]);
            }
        }
        if pairs_in(xs, ys) {
            assert forall|i: int| 0 <= i < xs.len() implies pair_found(#[trigger] xs[i], ys) by {
                if i > 0 {
                    assert(xs.drop_first()[i - 1] == xs[i]);
                }
            }
        }
    }
}

/// `p`'s key is found in `ys` and the value there equals `p`'s.
pub open spec fn pair_found(p: (Value, Value), ys: Seq<(Value, Value)>) -> bool {
    match find_key(p.0, ys) {
        Some(j) => 0 <= j < ys.len() && lang_eq(p.1, ys[j].1),
        None => false,
    }
}

/// The first pair of `ys` whose key equals `k`.
pub fn find_key_index(k: &Value, ys: &Vec<(Value, Value)>) -> (r: Option<usize>)
    ensures
        match r {
            Some(j) => find_key(*k, ys@) == Some(j as int),
            None => find_key(*k, ys@) is None,
        },
    decreases *k, 2nat, 0nat,
{
    let mut j: usize = 0;
    while j < ys.len()
        invariant
            j <= ys@.len(),
            forall|jj: int| 0 <= jj < j ==> !lang_eq(*k, #[trigger] ys@[jj].0),
        decreases ys@.len() - j,
    {
        if equal(k, &ys[j].0) {
            proof {
                lemma_find_key_skip(*k, ys@, j as int);
                assert(ys@.skip(j as int)[0] == ys@[j as int]);
            }
            return Some(j);
        }
        j = j + 1;
    }
    proof {
        lemma_find_key_skip(*k, ys@, j as int);
        assert(ys@.skip(j as int).len() == 0);
    }
    None
}

/// Language `=`.
#[verifier::loop_isolation(false)]
pub fn equal(a: &Value, b: &Value) -> (r: bool)
    ensures
        r == lang_eq(*a, *b),
    decreases *a, 1nat, 0nat,
{
    match (a, b) {
        (Value::Nil, Value::Nil) => true,
        (Value::Bool(x), Value::Bool(y)) => *x == *y,
        (Value::Int(x), Value::Int(y)) => *x == *y,
        (Value::Float(x), Value::Float(y)) => floats_equal(*x, *y),
        (Value::Str(x), Value::Str(y)) => str_eq(x.0.as_str(), y.0.as_str()),
        (Value::Bytes(x), Value::Bytes(y)) => bytes_eq(&x.0, &y.0),
        (Value::Sym(x), Value::Sym(y)) => x.0 == y.0,
        (Value::Keyword(x), Value::Keyword(y)) => x.0 == y.0,
        (Value::List(x), Value::List(y)) | (Value::List(x), Value::Vec(y)) | (
            Value::Vec(x),
            Value::List(y),
        ) | (Value::Vec(x), Value::Vec(y)) => {
            if x.len() != y.len() {
                proof {
                    lemma_seq_eq_index(x@, y@);
                }
                return false;
            }
            let mut i: usize = 0;
            while i < x.len()
                invariant
                    i <= x@.len(),
                    x@.len() == y@.len(),
                    forall|j: int| 0 <= j < i ==> lang_eq(#[trigger] x@[j], y@[j]),
                decreases x@.len() - i,
            {
                proof {
                    assert(decreases_to!(x@ => x@[i as int]));
                }
                if !equal(&x[i], &y[i]) {
                    proof {
                        lemma_seq_eq_index(x@, y@);
                    }
                    return false;
                }
                i = i + 1;
            }
            proof {
                lemma_seq_eq_index(x@, y@);
            }
            true
        },
        (Value::Dict(x), Value::Dict(y)) => {
            if x.len() != y.len() {
                return false;
            }
            let mut i: usize = 0;
            while i < x.len()
                invariant
                    i <= x@.len(),
                    x@.len() == y@.len(),
                    forall|j: int| 0 <= j < i ==> pair_found(#[trigger] x@[j], y@),
                decreases x@.len() - i,
            {
                proof {
                    assert(decreases_to!(x@ => x@[i as int]));
                    assert(decreases_to!(x@[i as int] => x@[i as int].0));
                    assert(decreases_to!(x@[i as int] => x@[i as int].1));
                }
                let found = find_key_index(&x[i].0, y);
                match found {
                    Some(j) => {
                        proof {
                            lemma_find_key_range(x@[i as int].0, y@);
                        }
                        if !equal(&x[i].1, &y[j].1) {
                            proof {
                                lemma_pairs_in_index(x@, y@);
                                assert(!pair_found(x@[i as int], y@));
                            }
                            return false;
                        }
                    },
                    None => {
                        proof {
                            lemma_pairs_in_index(x@, y@);
                            assert(!pair_found(x@[i as int], y@));
                        }
                        return false;
                    },
                }
                i = i + 1;
            }
            proof {
                lemma_pairs_in_index(x@, y@);
            }
            true
        },
        (Value::Fn(x), Value::Fn(y)) => match (&**x, &**y) {
            (Closure::Fn { id: i, .. }, Closure::Fn { id: j, .. }) => *i == *j,
            (Closure::Native(i), Closure::Native(j)) => i.0 == j.0,
            _ => false,
        },
        (Value::Cell(x), Value::Cell(y)) => x.0 == y.0 && x.1 == y.1,
        (Value::Handle(x), Value::Handle(y)) => x.0 == y.0 && x.1 == y.1,
        (Value::Buffer(x), Value::Buffer(y)) => x.0 == y.0 && x.1 == y.1,
        _ => false,
    }
}

pub fn bytes_eq(a: &Vec<u8>, b: &Vec<u8>) -> (r: bool)
    ensures
        r == (a@ == b@),
{
    if a.len() != b.len() {
        return false;
    }
    let mut i: usize = 0;
    while i < a.len()
        invariant
            i <= a@.len(),
            a@.len() == b@.len(),
            forall|j: int| 0 <= j < i ==> a@[j] == b@[j],
        decreases a@.len() - i,
    {
        if a[i] != b[i] {
            return false;
        }
        i = i + 1;
    }
    proof {
        assert(a@ =~= b@);
    }
    true
}

// --- constant-pool identity -----------------------------------------------------

/// Identity for the constant pool: two constants may share an entry only if
/// no program can tell them apart. Floats compare by bit pattern, a list
/// never merges with a vector, and functions, cells, handles and buffers
/// never merge at all.
pub open spec fn same_const_spec(a: Value, b: Value) -> bool
    decreases a, 0nat,
{
    match (a, b) {
        (Value::Nil, Value::Nil) => true,
        (Value::Bool(x), Value::Bool(y)) => x == y,
        (Value::Int(x), Value::Int(y)) => x == y,
        (Value::Float(x), Value::Float(y)) => x == y,
        (Value::Str(x), Value::Str(y)) => x.0@ == y.0@,
        (Value::Bytes(x), Value::Bytes(y)) => x.0@ == y.0@,
        (Value::Sym(x), Value::Sym(y)) => x == y,
        (Value::Keyword(x), Value::Keyword(y)) => x == y,
        (Value::List(x), Value::List(y)) => same_consts(x@, y@),
        (Value::Vec(x), Value::Vec(y)) => same_consts(x@, y@),
        (Value::Dict(x), Value::Dict(y)) => same_const_pairs(x@, y@),
        _ => false,
    }
}

pub open spec fn same_consts(xs: Seq<Value>, ys: Seq<Value>) -> bool
    decreases xs, 0nat,
{
    if xs.len() == 0 {
        ys.len() == 0
    } else {
        ys.len() > 0 && same_const_spec(xs[0], ys[0]) && same_consts(xs.drop_first(), ys.drop_first())
    }
}

pub open spec fn same_const_pairs(xs: Seq<(Value, Value)>, ys: Seq<(Value, Value)>) -> bool
    decreases xs, 0nat,
{
    if xs.len() == 0 {
        ys.len() == 0
    } else {
        ys.len() > 0 && same_const_spec(xs[0].0, ys[0].0) && same_const_spec(xs[0].1, ys[0].1)
            && same_const_pairs(xs.drop_first(), ys.drop_first())
    }
}

proof fn lemma_same_consts_index(xs: Seq<Value>, ys: Seq<Value>)
    ensures
        same_consts(xs, ys) <==> (xs.len() == ys.len() && forall|i: int|
            0 <= i < xs.len() ==> same_const_spec(#[trigger] xs[i], ys[i])),
    decreases xs.len(),
{
    if xs.len() > 0 && ys.len() > 0 {
        lemma_same_consts_index(xs.drop_first(), ys.drop_first());
        if xs.len() == ys.len() && forall|i: int|
            0 <= i < xs.len() ==> same_const_spec(#[trigger] xs[i], ys[i]) {
            assert forall|i: int| 0 <= i < xs.drop_first().len() implies same_const_spec(
                #[trigger] xs.drop_first()[i],
                ys.drop_first()[i],
            ) by {
                assert(xs.drop_first()[i] == xs[i + 1]);
            }
            assert(same_const_spec(xs[0], ys[0]));
        }
        if same_consts(xs, ys) {
            assert forall|i: int| 0 <= i < xs.len() implies same_const_spec(#[trigger] xs[i], ys[i]) by {
                if i > 0 {
                    assert(xs.drop_first()[i - 1] == xs[i]);
                    assert(ys.drop_first()[i - 1] == ys[i]);
                }
            }
        }
    }
}

pub open spec fn pair_same(p: (Value, Value), q: (Value, Value)) -> bool {
    same_const_spec(p.0, q.0) && same_const_spec(p.1, q.1)
}

proof fn lemma_same_const_pairs_index(xs: Seq<(Value, Value)>, ys: Seq<(Value, Value)>)
    ensures
        same_const_pairs(xs, ys) <==> (xs.len() == ys.len() && forall|i: int|
            0 <= i < xs.len() ==> pair_same(#[trigger] xs[i], ys[i])),
    decreases xs.len(),
{
    if xs.len() > 0 && ys.len() > 0 {
        lemma_same_const_pairs_index(xs.drop_first(), ys.drop_first());
        if xs.len() == ys.len() && forall|i: int| 0 <= i < xs.len() ==> pair_same(#[trigger] xs[i], ys[i]) {
            assert forall|i: int| 0 <= i < xs.drop_first().len() implies pair_same(
                #[trigger] xs.drop_first()[i],
                ys.drop_first()[i],
            ) by {
                assert(xs.drop_first()[i] == xs[i + 1]);
                assert(ys.drop_first()[i] == ys[i + 1]);
            }
            assert(pair_same(xs[0], ys[0]));
        }
        if same_const_pairs(xs, ys) {
            assert forall|i: int| 0 <= i < xs.len() implies pair_same(#[trigger] xs[i], ys[i]) by {
                if i > 0 {
                    assert(xs.drop_first()[i - 1] == xs[i]);
                    assert(ys.drop_first()[i - 1] == ys[i]);
                    assert(pair_same(xs.drop_first()[i - 1], ys.drop_first()[i - 1]));
                }
            }
        }
    }
}

#[verifier::loop_isolation(false)]
pub fn same_const(a: &Value, b: &Value) -> (r: bool)
    ensures
        r == same_const_spec(*a, *b),
    decreases *a,
{
    match (a, b) {
        (Value::Nil, Value::Nil) => true,
        (Value::Bool(x), Value::Bool(y)) => *x == *y,
        (Value::Int(x), Value::Int(y)) => *x == *y,
        (Value::Float(x), Value::Float(y)) => *x == *y,
        (Value::Str(x), Value::Str(y)) => str_eq(x.0.as_str(), y.0.as_str()),
        (Value::Bytes(x), Value::Bytes(y)) => bytes_eq(&x.0, &y.0),
        (Value::Sym(x), Value::Sym(y)) => x.0 == y.0,
        (Value::Keyword(x), Value::Keyword(y)) => x.0 == y.0,
        (Value::List(x), Value::List(y)) | (Value::Vec(x), Value::Vec(y)) => {
            proof {
                lemma_same_consts_index(x@, y@);
            }
            if x.len() != y.len() {
                return false;
            }
            let mut i: usize = 0;
            while i < x.len()
                invariant
                    i <= x@.len(),
                    x@.len() == y@.len(),
                    forall|j: int| 0 <= j < i ==> same_const_spec(#[trigger] x@[j], y@[j]),
                decreases x@.len() - i,
            {
                proof {
                    assert(decreases_to!(x@ => x@[i as int]));
                }
                if !same_const(&x[i], &y[i]) {
                    return false;
                }
                i = i + 1;
            }
            true
        },
        (Value::Dict(x), Value::Dict(y)) => {
            proof {
                lemma_same_const_pairs_index(x@, y@);
            }
            if x.len() != y.len() {
                return false;
            }
            let mut i: usize = 0;
            while i < x.len()
                invariant
                    i <= x@.len(),
                    x@.len() == y@.len(),
                    forall|j: int| 0 <= j < i ==> pair_same(#[trigger] x@[j], y@[j]),
                decreases x@.len() - i,
            {
                proof {
                    assert(decreases_to!(x@ => x@[i as int]));
                    assert(decreases_to!(x@[i as int] => x@[i as int].0));
                    assert(decreases_to!(x@[i as int] => x@[i as int].1));
                }
                if !same_const(&x[i].0, &y[i].0) || !same_const(&x[i].1, &y[i].1) {
                    return false;
                }
                i = i + 1;
            }
            true
        },
        _ => false,
    }
}

// --- the interner ----------------------------------------------------------------

/// One table for symbols and keywords. An id alone does not say which kind
/// you have; the `Value` variant does.
///
/// Looked up by scanning from the newest name back, which finds what a
/// name-to-index map rebuilt from the table in order would find.
#[derive(Debug)]
pub struct Interner {
    names: Vec<String>,
}

impl View for Interner {
    type V = Seq<Seq<char>>;

    closed spec fn view(&self) -> Seq<Seq<char>> {
        self.names@.map_values(|s: String| s@)
    }
}

/// `b` keeps every name of `a` at its position, and may hold more after it.
pub open spec fn grows(a: Seq<Seq<char>>, b: Seq<Seq<char>>) -> bool {
    a.len() <= b.len() && forall|i: int| 0 <= i < a.len() ==> #[trigger] b[i] == a[i]
}

/// The last index holding `name`.
pub open spec fn last_index_of(names: Seq<Seq<char>>, name: Seq<char>) -> Option<int>
    decreases names.len(),
{
    if names.len() == 0 {
        None
    } else if names.last() == name {
        Some(names.len() - 1)
    } else {
        last_index_of(names.drop_last(), name)
    }
}

pub proof fn lemma_last_index_of(names: Seq<Seq<char>>, name: Seq<char>)
    ensures
        last_index_of(names, name) matches Some(i) ==> 0 <= i < names.len() && names[i] == name,
        last_index_of(names, name) is None ==> !names.contains(name),
    decreases names.len(),
{
    if names.len() > 0 {
        lemma_last_index_of(names.drop_last(), name);
        if last_index_of(names, name) is None {
            assert forall|i: int| 0 <= i < names.len() implies names[i] != name by {
                if i < names.len() - 1 {
                    assert(names.drop_last()[i] == names[i]);
                }
            }
        }
    }
}

impl Interner {
    pub fn new() -> (r: Interner)
        ensures
            r@ == Seq::<Seq<char>>::empty(),
    {
        let r = Interner { names: Vec::new() };
        proof {
            assert(r@ =~= Seq::<Seq<char>>::empty());
        }
        r
    }

    pub open spec fn len(&self) -> nat {
        self@.len()
    }

    /// Positional, so the whole table travels as its names.
    pub fn names(&self) -> (r: &Vec<String>)
        ensures
            r@.map_values(|s: String| s@) == self@,
    {
        &self.names
    }

    pub fn restore(names: Vec<String>) -> (r: Interner)
        ensures
            r@ == names@.map_values(|s: String| s@),
    {
        Interner { names }
    }

    /// The id of `name`, adding it if it is new. Ids are the table position
    /// as a `u32`.
    pub fn intern(&mut self, name: &str) -> (r: u32)
        ensures
            grows(old(self)@, final(self)@),
            final(self)@.len() <= old(self)@.len() + 1,
            match last_index_of(old(self)@, name@) {
                Some(i) => final(self)@ == old(self)@ && r == i as u32,
                None => final(self)@ == old(self)@.push(name@) && r == old(self)@.len() as u32,
            },
    {
        proof {
            assert(self@.take(self@.len() as int) =~= self@);
        }
        let mut i: usize = self.names.len();
        while i > 0
            invariant
                i <= self.names@.len(),
                self@ == self.names@.map_values(|s: String| s@),
                last_index_of(self@, name@) == last_index_of(self@.take(i as int), name@),
            decreases i,
        {
            proof {
                assert(self@.take(i as int).drop_last() =~= self@.take(i - 1));
                assert(self@.take(i as int).last() == self.names@[i - 1]@);
            }
            if str_eq(self.names[i - 1].as_str(), name) {
                proof {
                    assert(self@.take(i as int).last() == name@);
                    assert(last_index_of(self@.take(i as int), name@) == Some(i - 1));
                }
                return #[verifier::truncate] ((i - 1) as u32);
            }
            i = i - 1;
        }
        proof {
            assert(self@.take(0) =~= Seq::<Seq<char>>::empty());
        }
        let id = #[verifier::truncate] (self.names.len() as u32);
        let ghost before = self@;
        self.names.push(copy_str(name));
        proof {
            assert(self@ =~= before.push(name@));
        }
        id
    }

    pub fn sym(&mut self, name: &str) -> (r: Value)
        ensures
            grows(old(self)@, final(self)@),
            match last_index_of(old(self)@, name@) {
                Some(i) => final(self)@ == old(self)@ && r == Value::Sym(SymId(i as u32)),
                None => final(self)@ == old(self)@.push(name@) && r == Value::Sym(
                    SymId(old(self)@.len() as u32),
                ),
            },
    {
        Value::Sym(SymId(self.intern(name)))
    }

    pub fn keyword(&mut self, name: &str) -> (r: Value)
        ensures
            grows(old(self)@, final(self)@),
            match last_index_of(old(self)@, name@) {
                Some(i) => final(self)@ == old(self)@ && r == Value::Keyword(KwId(i as u32)),
                None => final(self)@ == old(self)@.push(name@) && r == Value::Keyword(
                    KwId(old(self)@.len() as u32),
                ),
            },
    {
        Value::Keyword(KwId(self.intern(name)))
    }

    pub fn name(&self, id: u32) -> (r: &str)
        requires
            (id as int) < self@.len(),
        ensures
            r@ == self@[id as int],
    {
        self.names[id as usize].as_str()
    }

    /// The name of `id`, or nothing for an id this table never issued.
    pub fn name_or_empty(&self, id: u32) -> (r: &str)
        ensures
            (id as int) < self@.len() ==> r@ == self@[id as int],
            (id as int) >= self@.len() ==> r@ == Seq::<char>::empty(),
    {
        if (id as usize) < self.names.len() {
            self.names[id as usize].as_str()
        } else {
            proof {
                reveal_strlit("");
            }
            ""
        }
    }
}

/// The name `intern` hands back is the name that was interned.
pub proof fn lemma_intern_names(names: Seq<Seq<char>>, name: Seq<char>, r: u32, after: Seq<Seq<char>>)
    requires
        names.len() < u32::MAX,
        match last_index_of(names, name) {
            Some(i) => after == names && r == i as u32,
            None => after == names.push(name) && r == names.len() as u32,
        },
    ensures
        (r as int) < after.len(),
        after[r as int] == name,
{
    lemma_last_index_of(names, name);
}

// --- origins -----------------------------------------------------------------

/// The span carrier. Origins live outside the value graph and mirror its
/// shape: one entry per syntactic child. A map contributes two children per
/// pair, key then value.
#[derive(Debug)]
pub struct Origins {
    pub origin: SpanOrigin,
    pub children: Vec<Origins>,
}

impl Origins {
    pub fn leaf(origin: SpanOrigin) -> (r: Origins)
        ensures
            r.origin == origin,
            r.children@.len() == 0,
    {
        Origins { origin, children: Vec::new() }
    }
}

/// Two origin trees with one shape and the same origin at every node.
pub open spec fn same_origins(a: Origins, b: Origins) -> bool
    decreases b,
{
    &&& a.origin == b.origin
    &&& a.children@.len() == b.children@.len()
    &&& forall|i: int|
        0 <= i < b.children@.len() ==> {
            proof {
                assert(decreases_to!(b.children@ => b.children@[i]));
            }
            same_origins(a.children@[i], #[trigger] b.children@[i])
        }
}

impl Clone for Origins {
    #[verifier::loop_isolation(false)]
    fn clone(&self) -> (r: Origins)
        ensures
            r.origin == self.origin,
            r.children@.len() == self.children@.len(),
            same_origins(r, *self),
        decreases self,
    {
        let mut children: Vec<Origins> = Vec::new();
        let mut i: usize = 0;
        while i < self.children.len()
            invariant
                i <= self.children@.len(),
                children@.len() == i,
                forall|k: int| 0 <= k < i ==> same_origins(#[trigger] children@[k], self.children@[k]),
            decreases self.children@.len() - i,
        {
            proof {
                assert(decreases_to!(self.children@ => self.children@[i as int]));
            }
            children.push(self.children[i].clone());
            i = i + 1;
        }
        Origins { origin: self.origin, children }
    }
}

/// A value the reader produced, or that the expander is treating as code.
#[derive(Debug)]
pub struct LocatedForm {
    pub root: Value,
    pub origins: Origins,
}

impl Clone for LocatedForm {
    fn clone(&self) -> (r: LocatedForm)
        ensures
            r.root == self.root,
            r.origins.origin == self.origins.origin,
            r.origins.children@.len() == self.origins.children@.len(),
            same_origins(r.origins, self.origins),
    {
        LocatedForm { root: self.root.clone(), origins: self.origins.clone() }
    }
}

/// Syntactic children in source order: a map contributes key then value.
pub open spec fn children_spec(v: Value) -> Seq<Value> {
    match v {
        Value::List(l) => l@,
        Value::Vec(x) => x@,
        Value::Dict(m) => flatten_pairs(m@),
        _ => Seq::empty(),
    }
}

pub open spec fn flatten_pairs(ps: Seq<(Value, Value)>) -> Seq<Value> {
    Seq::new(2 * ps.len(), |i: int| if i % 2 == 0 { ps[i / 2].0 } else { ps[i / 2].1 })
}

/// How many syntactic children a value has.
pub fn child_count(v: &Value) -> (r: usize)
    ensures
        children_spec(*v).len() <= usize::MAX ==> r == children_spec(*v).len(),
{
    match v {
        Value::List(l) => l.len(),
        Value::Vec(x) => x.len(),
        Value::Dict(m) => if m.len() <= usize::MAX / 2 {
            m.len() * 2
        } else {
            usize::MAX
        },
        _ => 0,
    }
}

/// Syntactic children in source order.
pub fn children(v: &Value) -> (r: Vec<Value>)
    ensures
        r@ == children_spec(*v),
{
    match v {
        Value::List(l) => copy_values(l),
        Value::Vec(x) => copy_values(x),
        Value::Dict(m) => {
            let mut out: Vec<Value> = Vec::new();
            let mut i: usize = 0;
            while i < m.len()
                invariant
                    i <= m@.len(),
                    out@ == flatten_pairs(m@.take(i as int)),
                decreases m@.len() - i,
            {
                out.push(m[i].0.clone());
                out.push(m[i].1.clone());
                proof {
                    assert(out@ =~= flatten_pairs(m@.take(i + 1)));
                }
                i = i + 1;
            }
            proof {
                assert(m@.take(m@.len() as int) =~= m@);
            }
            out
        },
        _ => {
            let out: Vec<Value> = Vec::new();
            proof {
                assert(out@ =~= children_spec(*v));
            }
            out
        },
    }
}

pub open spec fn kind_name_spec(v: Value) -> &'static str {
    match v {
        Value::Nil => "nil",
        Value::Bool(_) => "bool",
        Value::Int(_) => "int",
        Value::Float(_) => "float",
        Value::Str(_) => "string",
        Value::Bytes(_) => "bytes",
        Value::Sym(_) => "symbol",
        Value::Keyword(_) => "keyword",
        Value::List(_) => "list",
        Value::Vec(_) => "vector",
        Value::Dict(_) => "map",
        Value::Fn(_) => "fn",
        Value::Cell(_) => "cell",
        Value::Handle(_) => "handle",
        Value::Buffer(_) => "buffer",
    }
}

pub fn kind_name(v: &Value) -> (r: &'static str)
    ensures
        r == kind_name_spec(*v),
{
    match v {
        Value::Nil => "nil",
        Value::Bool(_) => "bool",
        Value::Int(_) => "int",
        Value::Float(_) => "float",
        Value::Str(_) => "string",
        Value::Bytes(_) => "bytes",
        Value::Sym(_) => "symbol",
        Value::Keyword(_) => "keyword",
        Value::List(_) => "list",
        Value::Vec(_) => "vector",
        Value::Dict(_) => "map",
        Value::Fn(_) => "fn",
        Value::Cell(_) => "cell",
        Value::Handle(_) => "handle",
        Value::Buffer(_) => "buffer",
    }
}

/// The size limit asserted on `Value`.
pub const VALUE_SIZE_LIMIT: usize = 24;


// --- checking origins against their values -------------------------------------

/// A byte offset at which a character of `src` starts, or its end.
pub open spec fn is_boundary(src: Seq<char>, b: int) -> bool {
    exists|k: int| 0 <= k <= src.len() && #[trigger] byte_offset(src, k) == b
}

pub open spec fn span_text(s: Span) -> Seq<char> {
    "span "@ + nat_digits(s.start as nat) + ".."@ + nat_digits(s.end as nat)
}

/// What is wrong with one origin: a source span must lie inside the source
/// and start and end on character boundaries.
pub open spec fn span_problems(o: SpanOrigin, src: Seq<char>) -> Seq<Seq<char>> {
    match o {
        SpanOrigin::Source(s) => if s.start > s.end || s.end > utf8_len(src) {
            seq![span_text(s) + " outside source of "@ + nat_digits(utf8_len(src)) + " bytes"@]
        } else if !is_boundary(src, s.start as int) || !is_boundary(src, s.end as int) {
            seq![span_text(s) + " does not lie on character boundaries"@]
        } else {
            Seq::empty()
        },
        _ => Seq::empty(),
    }
}

/// Every way `o` disagrees with `v`, in order: the span first, then either
/// an arity mismatch (and nothing below it, which would be noise) or the
/// children's problems child by child.
pub open spec fn origin_problems(v: Value, o: Origins, src: Seq<char>) -> Seq<Seq<char>>
    decreases o, 1nat,
{
    let want = children_spec(v).len();
    span_problems(o.origin, src) + if o.children@.len() != want {
        seq![
            kind_name_spec(v)@ + " has "@ + nat_digits(want) + " syntactic children but "@ + nat_digits(
                o.children@.len(),
            ) + " origins"@,
        ]
    } else {
        children_problems(children_spec(v), o.children@, src)
    }
}

pub open spec fn children_problems(vs: Seq<Value>, os: Seq<Origins>, src: Seq<char>) -> Seq<Seq<char>>
    decreases os, 0nat,
{
    if os.len() == 0 || vs.len() == 0 {
        Seq::empty()
    } else {
        origin_problems(vs[0], os[0], src) + children_problems(vs.drop_first(), os.drop_first(), src)
    }
}

/// The byte offset of every character of `cs`, and of its end.
fn char_offsets(cs: &Vec<char>, total: usize) -> (r: Vec<usize>)
    requires
        total == utf8_len(cs@),
    ensures
        r@.len() == cs@.len() + 1,
        forall|k: int| 0 <= k <= cs@.len() ==> #[trigger] r@[k] == byte_offset(cs@, k),
{
    let mut out: Vec<usize> = Vec::new();
    let mut off: usize = 0;
    let mut i: usize = 0;
    proof {
        assert(cs@.take(0) =~= Seq::<char>::empty());
    }
    while i < cs.len()
        invariant
            i <= cs@.len(),
            total == utf8_len(cs@),
            off == byte_offset(cs@, i as int),
            out@.len() == i,
            forall|k: int| 0 <= k < i ==> #[trigger] out@[k] == byte_offset(cs@, k),
        decreases cs@.len() - i,
    {
        out.push(off);
        proof {
            lemma_byte_offset_step(cs@, i as int);
            lemma_byte_offset_mono(cs@, i + 1, cs@.len() as int);
            assert(cs@.take(cs@.len() as int) =~= cs@);
        }
        off = off + width_of(cs[i]);
        i = i + 1;
    }
    out.push(off);
    out
}

fn on_boundary(offsets: &Vec<usize>, b: usize, Ghost(cs): Ghost<Seq<char>>) -> (r: bool)
    requires
        offsets@.len() == cs.len() + 1,
        forall|k: int| 0 <= k <= cs.len() ==> #[trigger] offsets@[k] == byte_offset(cs, k),
    ensures
        r == is_boundary(cs, b as int),
{
    let mut k: usize = 0;
    while k < offsets.len()
        invariant
            k <= offsets@.len(),
            offsets@.len() == cs.len() + 1,
            forall|k: int| 0 <= k <= cs.len() ==> #[trigger] offsets@[k] == byte_offset(cs, k),
            forall|j: int| 0 <= j < k ==> byte_offset(cs, j) != b,
        decreases offsets@.len() - k,
    {
        if offsets[k] == b {
            return true;
        }
        k = k + 1;
    }
    proof {
        assert forall|j: int| 0 <= j <= cs.len() implies #[trigger] byte_offset(cs, j) != b by {}
    }
    false
}

/// Walk a value against its origins and collect every way they disagree:
/// a source span lies inside the file it came from, both of its ends fall on
/// character boundaries, and there is one child origin per syntactic child.
/// The arity check is the one that catches a whole category of node
/// silently having no origin.
pub fn check_origins(v: &Value, o: &Origins, src: &str, out: &mut Vec<String>)
    ensures
        final(out)@.map_values(|s: String| s@) == old(out)@.map_values(|s: String| s@) + origin_problems(
            *v,
            *o,
            src@,
        ),
{
    let total = src.as_bytes().len();
    proof {
        lemma_utf8_len_encoding(src@);
    }
    let cs = chars_of(src);
    let offsets = char_offsets(&cs, total);
    check_below(v, o, &offsets, Ghost(src@), out);
}

fn push_text(out: &mut Vec<String>, t: String)
    ensures
        final(out)@.map_values(|s: String| s@) == old(out)@.map_values(|s: String| s@).push(t@),
{
    let ghost before = out@;
    out.push(t);
    proof {
        assert(out@.map_values(|s: String| s@) =~= before.map_values(|s: String| s@).push(t@));
    }
}

fn check_below(v: &Value, o: &Origins, offsets: &Vec<usize>, Ghost(cs): Ghost<Seq<char>>, out: &mut Vec<String>)
    requires
        offsets@.len() == cs.len() + 1,
        forall|k: int| 0 <= k <= cs.len() ==> #[trigger] offsets@[k] == byte_offset(cs, k),
    ensures
        final(out)@.map_values(|s: String| s@) == old(out)@.map_values(|s: String| s@) + origin_problems(
            *v,
            *o,
            cs,
        ),
    decreases *o,
{
    let ghost start = out@.map_values(|s: String| s@);
    if let SpanOrigin::Source(s) = o.origin {
        let total = offsets[offsets.len() - 1];
        proof {
            assert(cs.take(cs.len() as int) =~= cs);
        }
        if s.start > s.end || s.end as usize > total {
            let mut t = String::new();
            push_span_text(&mut t, s);
            push_str(&mut t, " outside source of ");
            push_nat_digits(&mut t, total as u128);
            push_str(&mut t, " bytes");
            push_text(out, t);
        } else if !on_boundary(offsets, s.start as usize, Ghost(cs)) || !on_boundary(
            offsets,
            s.end as usize,
            Ghost(cs),
        ) {
            let mut t = String::new();
            push_span_text(&mut t, s);
            push_str(&mut t, " does not lie on character boundaries");
            push_text(out, t);
        }
    }
    let ghost mid = out@.map_values(|s: String| s@);
    proof {
        assert(mid == start + span_problems(o.origin, cs));
    }
    let kids = children(v);
    if kids.len() != o.children.len() {
        let mut t = String::new();
        push_str(&mut t, kind_name(v));
        push_str(&mut t, " has ");
        push_nat_digits(&mut t, kids.len() as u128);
        push_str(&mut t, " syntactic children but ");
        push_nat_digits(&mut t, o.children.len() as u128);
        push_str(&mut t, " origins");
        push_text(out, t);
        return;
    }
    let ghost vs = kids@;
    let ghost os = o.children@;
    let mut i: usize = 0;
    proof {
        assert(vs.skip(0) =~= vs);
        assert(os.skip(0) =~= os);
        assert(mid + Seq::<Seq<char>>::empty() =~= mid);
    }
    while i < kids.len()
        invariant
            vs == kids@,
            os == o.children@,
            vs.len() == os.len(),
            i <= vs.len(),
            offsets@.len() == cs.len() + 1,
            forall|k: int| 0 <= k <= cs.len() ==> #[trigger] offsets@[k] == byte_offset(cs, k),
            out@.map_values(|s: String| s@) + children_problems(vs.skip(i as int), os.skip(i as int), cs)
                == mid + children_problems(vs, os, cs),
        decreases vs.len() - i,
    {
        let ghost before = out@.map_values(|s: String| s@);
        proof {
            assert(vs.skip(i as int).drop_first() =~= vs.skip(i + 1));
            assert(os.skip(i as int).drop_first() =~= os.skip(i + 1));
            assert(o.children@[i as int] == os[i as int]);
        }
        check_below(&kids[i], &o.children[i], offsets, Ghost(cs), out);
        proof {
            let here = origin_problems(vs[i as int], os[i as int], cs);
            let rest = children_problems(vs.skip(i + 1), os.skip(i + 1), cs);
            assert(children_problems(vs.skip(i as int), os.skip(i as int), cs) == here + rest);
            assert(before + (here + rest) =~= (before + here) + rest);
        }
        i = i + 1;
    }
    proof {
        assert(children_problems(vs.skip(i as int), os.skip(i as int), cs) =~= Seq::<Seq<char>>::empty());
        assert(out@.map_values(|s: String| s@) + Seq::<Seq<char>>::empty() =~= out@.map_values(|s: String| s@));
    }
}

fn push_span_text(t: &mut String, s: Span)
    ensures
        final(t)@ == old(t)@ + span_text(s),
{
    push_str(t, "span ");
    push_nat_digits(t, s.start as u128);
    push_str(t, "..");
    push_nat_digits(t, s.end as u128);
    proof {
        assert(old(t)@ + "span "@ + nat_digits(s.start as nat) + ".."@ + nat_digits(s.end as nat) =~= old(t)@
            + span_text(s));
    }
}

pub fn value_size() -> (r: usize)
    ensures
        r as nat == vstd::layout::size_of::<Value>(),
{
    core::mem::size_of::<Value>()
}

pub fn origins_size() -> (r: usize)
    ensures
        r as nat == vstd::layout::size_of::<Origins>(),
{
    core::mem::size_of::<Origins>()
}

} // verus!
