//! The primitive set: numbers, collections, strings, bytes.
//!
//! Separate from `vm` because the two answer different questions: the VM
//! owns the call protocol and has no opinion about which functions exist;
//! this module is that opinion. Every entry is an ordinary global, so `+` is
//! a value a program can pass around and rebind.

use crate::platform::{FloatOp, Platform};
use crate::printer;
use crate::reader;
use crate::text::{cat, cat3, chars_of, copy_str, int_to_text, nat_to_text, push_char, push_str, string_of_range};
use crate::value::{
    equal, find_key_index, float_is_nan, grows, is_nan, kind_name, lang_eq, BytesObj, StrObj, Value,
};
use crate::vm::{fault, Fault, Kind, Prim, Vm};
use std::rc::Rc;
use vstd::prelude::*;

verus! {

/// Each primitive's arity: the fewest arguments it takes, and whether it
/// takes more.
pub open spec fn prim_arity_spec(p: Prim) -> (u32, bool) {
    match p {
        Prim::Add | Prim::Mul => (0, true),
        Prim::Sub | Prim::Div => (1, true),
        Prim::Quot | Prim::Rem | Prim::Lt | Prim::Gt | Prim::Le | Prim::Ge | Prim::NumEq => (2, false),
        Prim::Eq | Prim::NotEq => (1, true),
        Prim::Not | Prim::Count | Prim::First | Prim::Rest => (1, false),
        Prim::Nth => (2, false),
        Prim::Get => (2, true),
        Prim::Contains => (2, false),
        Prim::Empty => (1, false),
        Prim::Conj => (1, true),
        Prim::Assoc => (3, true),
        Prim::Dissoc => (1, true),
        Prim::Keys | Prim::Vals | Prim::MakeCell | Prim::CellGet => (1, false),
        Prim::Str => (0, true),
        Prim::StrLen => (1, false),
        Prim::StrSlice => (3, false),
        Prim::ParseNumber | Prim::StrScalars | Prim::ScalarsStr | Prim::StrBytes | Prim::BytesStr
        | Prim::BytesLen => (1, false),
        Prim::Println | Prim::Gensym | Prim::List | Prim::Concat => (0, true),
        Prim::ToVec => (1, false),
        Prim::Vector | Prim::HashMap => (0, true),
        Prim::IoOpen => (2, false),
        Prim::IoClose | Prim::IoIsOpen => (1, false),
        Prim::IoRead => (2, false),
        Prim::IoReadAll => (1, false),
        Prim::IoWrite => (2, false),
        Prim::Adapter(_) => (0, true),
    }
}

pub fn prim_arity(p: Prim) -> (r: (u32, bool))
    ensures
        r == prim_arity_spec(p),
{
    match p {
        Prim::Add | Prim::Mul => (0, true),
        Prim::Sub | Prim::Div => (1, true),
        Prim::Quot | Prim::Rem | Prim::Lt | Prim::Gt | Prim::Le | Prim::Ge | Prim::NumEq => (2, false),
        Prim::Eq | Prim::NotEq => (1, true),
        Prim::Not | Prim::Count | Prim::First | Prim::Rest => (1, false),
        Prim::Nth => (2, false),
        Prim::Get => (2, true),
        Prim::Contains => (2, false),
        Prim::Empty => (1, false),
        Prim::Conj => (1, true),
        Prim::Assoc => (3, true),
        Prim::Dissoc => (1, true),
        Prim::Keys | Prim::Vals | Prim::MakeCell | Prim::CellGet => (1, false),
        Prim::Str => (0, true),
        Prim::StrLen => (1, false),
        Prim::StrSlice => (3, false),
        Prim::ParseNumber | Prim::StrScalars | Prim::ScalarsStr | Prim::StrBytes | Prim::BytesStr
        | Prim::BytesLen => (1, false),
        Prim::Println | Prim::Gensym | Prim::List | Prim::Concat => (0, true),
        Prim::ToVec => (1, false),
        Prim::Vector | Prim::HashMap => (0, true),
        Prim::IoOpen => (2, false),
        Prim::IoClose | Prim::IoIsOpen => (1, false),
        Prim::IoRead => (2, false),
        Prim::IoReadAll => (1, false),
        Prim::IoWrite => (2, false),
        Prim::Adapter(_) => (0, true),
    }
}

/// How many primitives `install` registers.
pub const PRIM_COUNT: usize = 44;

/// The primitive registered `i`-th: the order fixes each one's native id.
pub open spec fn prim_at(i: usize) -> Prim {
    match i {
        0 => Prim::Add,
        1 => Prim::Mul,
        2 => Prim::Sub,
        3 => Prim::Div,
        4 => Prim::Quot,
        5 => Prim::Rem,
        6 => Prim::Lt,
        7 => Prim::Gt,
        8 => Prim::Le,
        9 => Prim::Ge,
        10 => Prim::NumEq,
        11 => Prim::Eq,
        12 => Prim::NotEq,
        13 => Prim::Not,
        14 => Prim::Count,
        15 => Prim::First,
        16 => Prim::Rest,
        17 => Prim::Nth,
        18 => Prim::Get,
        19 => Prim::Contains,
        20 => Prim::Empty,
        21 => Prim::Conj,
        22 => Prim::Assoc,
        23 => Prim::Dissoc,
        24 => Prim::Keys,
        25 => Prim::Vals,
        26 => Prim::MakeCell,
        27 => Prim::CellGet,
        28 => Prim::Str,
        29 => Prim::StrLen,
        30 => Prim::StrSlice,
        31 => Prim::ParseNumber,
        32 => Prim::StrScalars,
        33 => Prim::ScalarsStr,
        34 => Prim::StrBytes,
        35 => Prim::BytesStr,
        36 => Prim::BytesLen,
        37 => Prim::Println,
        38 => Prim::Gensym,
        39 => Prim::List,
        40 => Prim::Concat,
        41 => Prim::ToVec,
        42 => Prim::Vector,
        43 => Prim::HashMap,
        _ => Prim::Adapter(0),
    }
}

/// The global name a primitive is bound to.
pub open spec fn prim_name(p: Prim) -> &'static str {
    match p {
        Prim::Add => "+",
        Prim::Mul => "*",
        Prim::Sub => "-",
        Prim::Div => "/",
        Prim::Quot => "quot",
        Prim::Rem => "rem",
        Prim::Lt => "<",
        Prim::Gt => ">",
        Prim::Le => "<=",
        Prim::Ge => ">=",
        Prim::NumEq => "==",
        Prim::Eq => "=",
        Prim::NotEq => "not=",
        Prim::Not => "not",
        Prim::Count => "count",
        Prim::First => "first",
        Prim::Rest => "rest",
        Prim::Nth => "nth",
        Prim::Get => "get",
        Prim::Contains => "contains?",
        Prim::Empty => "empty?",
        Prim::Conj => "conj",
        Prim::Assoc => "assoc",
        Prim::Dissoc => "dissoc",
        Prim::Keys => "keys",
        Prim::Vals => "vals",
        Prim::MakeCell => "cell",
        Prim::CellGet => "cell-get",
        Prim::Str => "str",
        Prim::StrLen => "str-len",
        Prim::StrSlice => "str-slice",
        Prim::ParseNumber => "parse-number",
        Prim::StrScalars => "str-scalars",
        Prim::ScalarsStr => "scalars-str",
        Prim::StrBytes => "str-bytes",
        Prim::BytesStr => "bytes-str",
        Prim::BytesLen => "bytes-len",
        Prim::Println => "println",
        Prim::Gensym => "gensym",
        Prim::List => "list",
        Prim::Concat => "concat",
        Prim::ToVec => "vec",
        Prim::Vector => "vector",
        Prim::HashMap => "hash-map",
        _ => "",
    }
}

/// The `i`-th entry of the primitive table: its name and the primitive.
fn prim_entry(i: usize) -> (r: (&'static str, Prim))
    requires
        i < PRIM_COUNT,
    ensures
        r.1 == prim_at(i),
        r.0 == prim_name(r.1),
{
    match i {
        0 => ("+", Prim::Add),
        1 => ("*", Prim::Mul),
        2 => ("-", Prim::Sub),
        3 => ("/", Prim::Div),
        4 => ("quot", Prim::Quot),
        5 => ("rem", Prim::Rem),
        6 => ("<", Prim::Lt),
        7 => (">", Prim::Gt),
        8 => ("<=", Prim::Le),
        9 => (">=", Prim::Ge),
        10 => ("==", Prim::NumEq),
        11 => ("=", Prim::Eq),
        12 => ("not=", Prim::NotEq),
        13 => ("not", Prim::Not),
        14 => ("count", Prim::Count),
        15 => ("first", Prim::First),
        16 => ("rest", Prim::Rest),
        17 => ("nth", Prim::Nth),
        18 => ("get", Prim::Get),
        19 => ("contains?", Prim::Contains),
        20 => ("empty?", Prim::Empty),
        21 => ("conj", Prim::Conj),
        22 => ("assoc", Prim::Assoc),
        23 => ("dissoc", Prim::Dissoc),
        24 => ("keys", Prim::Keys),
        25 => ("vals", Prim::Vals),
        26 => ("cell", Prim::MakeCell),
        27 => ("cell-get", Prim::CellGet),
        28 => ("str", Prim::Str),
        29 => ("str-len", Prim::StrLen),
        30 => ("str-slice", Prim::StrSlice),
        31 => ("parse-number", Prim::ParseNumber),
        32 => ("str-scalars", Prim::StrScalars),
        33 => ("scalars-str", Prim::ScalarsStr),
        34 => ("str-bytes", Prim::StrBytes),
        35 => ("bytes-str", Prim::BytesStr),
        36 => ("bytes-len", Prim::BytesLen),
        37 => ("println", Prim::Println),
        38 => ("gensym", Prim::Gensym),
        39 => ("list", Prim::List),
        40 => ("concat", Prim::Concat),
        41 => ("vec", Prim::ToVec),
        42 => ("vector", Prim::Vector),
        43 => ("hash-map", Prim::HashMap),
        _ => ("", Prim::Adapter(0)),
    }
}

/// Register the primitive set: each primitive becomes a native, in table
/// order, with its own arity, bound to its name.
pub fn install<P: Platform>(vm: &mut Vm<P>)
    ensures
        final(vm).handles == old(vm).handles,
        final(vm).platform == old(vm).platform,
        grows(old(vm).interner@, final(vm).interner@),
        final(vm).natives@.len() == old(vm).natives@.len() + PRIM_COUNT,
        forall|i: int| 0 <= i < old(vm).natives@.len() ==> #[trigger] final(vm).natives@[i] == old(vm).natives@[i],
        forall|i: int|
            0 <= i < PRIM_COUNT ==> {
                let n = #[trigger] final(vm).natives@[old(vm).natives@.len() + i];
                &&& n.prim == prim_at(i as usize)
                &&& (n.min, n.variadic) == prim_arity_spec(prim_at(i as usize))
                &&& old(vm).interner@.len() + PRIM_COUNT < u32::MAX ==> n.name.0 < final(vm).interner@.len()
                    && final(vm).interner@[n.name.0 as int] == prim_name(prim_at(i as usize))@
            },
{
    let ghost start = old(vm).natives@.len();
    let mut i: usize = 0;
    while i < PRIM_COUNT
        invariant
            i <= PRIM_COUNT,
            vm.handles == old(vm).handles,
            vm.platform == old(vm).platform,
            grows(old(vm).interner@, vm.interner@),
            vm.interner@.len() <= old(vm).interner@.len() + i,
            start == old(vm).natives@.len(),
            vm.natives@.len() == start + i,
            forall|j: int| 0 <= j < start ==> #[trigger] vm.natives@[j] == old(vm).natives@[j],
            forall|j: int|
                0 <= j < i ==> {
                    let n = #[trigger] vm.natives@[start + j];
                    &&& n.prim == prim_at(j as usize)
                    &&& (n.min, n.variadic) == prim_arity_spec(prim_at(j as usize))
                    &&& old(vm).interner@.len() + PRIM_COUNT < u32::MAX ==> vm.interner@[n.name.0 as int]
                        == prim_name(prim_at(j as usize))@
                    &&& old(vm).interner@.len() + PRIM_COUNT < u32::MAX ==> n.name.0 < vm.interner@.len()
                },
        decreases PRIM_COUNT - i,
    {
        let (name, p) = prim_entry(i);
        let (min, variadic) = prim_arity(p);
        vm.native(name, min, variadic, p);
        i = i + 1;
    }
}

/// Whether the ordering primitive `p` answers true for operands ordered `c`.
pub open spec fn holds(p: Prim, c: Cmp) -> bool {
    match p {
        Prim::Lt => c == Cmp::Less,
        Prim::Gt => c == Cmp::Greater,
        Prim::Le => c != Cmp::Greater,
        Prim::Ge => c != Cmp::Less,
        _ => c == Cmp::Equal,
    }
}

/// How two numbers order: integers exactly, and with a float on either side
/// as doubles, an integer as the double nearest to it. `##NaN` orders
/// against nothing, and a value that is no number has no order.
pub open spec fn num_order(a: Value, b: Value) -> Option<Cmp> {
    match (a, b) {
        (Value::Int(x), Value::Int(y)) => Some(
            if x < y {
                Cmp::Less
            } else if x == y {
                Cmp::Equal
            } else {
                Cmp::Greater
            },
        ),
        (Value::Float(x), Value::Float(y)) => if float_is_nan(x) || float_is_nan(y) {
            None
        } else {
            Some(float_order(x, y))
        },
        (Value::Int(i), Value::Float(y)) => if float_is_nan(y) {
            None
        } else {
            Some(float_order(nearest_float_bits(i), y))
        },
        (Value::Float(x), Value::Int(i)) => if float_is_nan(x) {
            None
        } else {
            Some(float_order(x, nearest_float_bits(i)))
        },
        _ => None,
    }
}

/// How `str` and `println` show one value: a string as its own text,
/// anything else as the printer spells it.
pub open spec fn shown(v: Value, names: Seq<Seq<char>>) -> Seq<char> {
    match v {
        Value::Str(s) => s.0@,
        _ => crate::printer::print_spec(v, names),
    }
}

/// The values shown one after another, `sep` between each two.
pub open spec fn shown_all(a: Seq<Value>, names: Seq<Seq<char>>, sep: Seq<char>) -> Seq<char>
    decreases a.len(),
{
    if a.len() == 0 {
        Seq::empty()
    } else if a.len() == 1 {
        shown(a[0], names)
    } else {
        shown_all(a.drop_last(), names, sep) + sep + shown(a.last(), names)
    }
}

/// Every value is a string or one the printer can spell against a table of
/// `n` names.
pub open spec fn all_showable(a: Seq<Value>, n: nat) -> bool {
    forall|i: int| 0 <= i < a.len() ==> (#[trigger] a[i]) is Str || printer::printable(a[i], n)
}

/// What `str-slice` gives: the characters between two byte offsets that
/// both fall on character boundaries, or a refusal.
pub open spec fn sliced(s: Value, from: Value, to: Value, r: Result<Value, Fault>) -> bool {
    &&& r is Ok <==> (s matches Value::Str(t) && from matches Value::Int(f) && to matches Value::Int(g) && 0 <= f
        <= g <= byte_len(t.0@) && (exists|i: int|
        0 <= i <= t.0@.len() && #[trigger] crate::text::byte_offset(t.0@, i) == f) && (exists|j: int|
        0 <= j <= t.0@.len() && #[trigger] crate::text::byte_offset(t.0@, j) == g))
    &&& r matches Ok(out) ==> s matches Value::Str(t) && from matches Value::Int(f) && to matches Value::Int(g)
        && exists|i: int, j: int|
        0 <= i <= j <= t.0@.len() && #[trigger] crate::text::byte_offset(t.0@, i) == f
            && #[trigger] crate::text::byte_offset(t.0@, j) == g && (out matches Value::Str(x) && x.0@
            == t.0@.subrange(i, j))
}

/// What `scalars-str` gives: the string of the scalar values a sequence
/// holds, or a refusal when an item is not one.
pub open spec fn from_scalars(v: Value, r: Result<Value, Fault>) -> bool {
    &&& r is Ok <==> (seq_items_spec(v) matches Some(xs) && forall|k: int|
        0 <= k < xs.len() ==> scalar_item(#[trigger] xs[k]))
    &&& r matches Ok(out) ==> out matches Value::Str(t) && seq_items_spec(v) matches Some(xs) && t.0@.len()
        == xs.len() && forall|k: int| 0 <= k < xs.len() ==> #[trigger] t.0@[k] as u32 == scalar_bits(xs[k])
}

/// The prefix `gensym` builds its name on, when its argument allows one.
pub open spec fn gensym_prefix(a: Seq<Value>, names: Seq<Seq<char>>) -> Option<Seq<char>> {
    if a.len() == 0 {
        Some("G"@)
    } else {
        match a[0] {
            Value::Str(s) => Some(s.0@),
            Value::Sym(x) => Some(
                if (x.0 as int) < names.len() {
                    names[x.0 as int]
                } else {
                    Seq::empty()
                },
            ),
            _ => None,
        }
    }
}

/// What running primitive `p` on arguments `a` gives, as far as the
/// primitive's own definition pins it down: arithmetic on integers exactly,
/// comparisons, equality, the sequence and map operations, cells, and the
/// constructors.
pub open spec fn prim_post<P: Platform>(
    vm: Vm<P>,
    vm2: Vm<P>,
    p: Prim,
    a: Seq<Value>,
    r: Result<Value, Fault>,
) -> bool {
    let all_int = forall|i: int| 0 <= i < a.len() ==> (#[trigger] a[i]) is Int;
    let numbers = a.len() >= 2 && (a[0] is Int || a[0] is Float) && (a[1] is Int || a[1] is Float);
    match p {
        Prim::Add | Prim::Mul => {
            let mul = p == Prim::Mul;
            let init: int = if mul {
                1
            } else {
                0
            };
            all_int ==> {
                &&& r matches Ok(v) ==> v == Value::Int(int_fold(a, init, mul) as i64)
                &&& r is Err <==> !folds_fit(a, init, mul)
            }
        },
        Prim::Sub => {
            &&& a.len() == 1 ==> match a[0] {
                Value::Int(i) => if i == i64::MIN {
                    r is Err
                } else {
                    r == Ok::<Value, Fault>(Value::Int(-i as i64))
                },
                Value::Float(b) => r == Ok::<Value, Fault>(Value::Float(b ^ 0x8000_0000_0000_0000u64)),
                _ => r is Err,
            }
            &&& a.len() == 2 && a[0] is Int && a[1] is Int ==> {
                let d = a[0]->Int_0 - a[1]->Int_0;
                if i64::MIN <= d <= i64::MAX {
                    r == Ok::<Value, Fault>(Value::Int(d as i64))
                } else {
                    r is Err
                }
            }
            &&& a.len() >= 2 && all_int ==> if subs_fit(a) {
                r == Ok::<Value, Fault>(Value::Int(sub_fold(a) as i64))
            } else {
                r is Err
            }
        },
        Prim::Div => {
            &&& r matches Ok(v) ==> v is Float
            &&& (exists|i: int| 0 <= i < a.len() && !(a[i] is Int || a[i] is Float)) ==> r is Err
        },
        Prim::Quot | Prim::Rem => {
            &&& a[0] is Int && a[1] is Int ==> {
                let (x, y) = (a[0]->Int_0 as int, a[1]->Int_0 as int);
                if y == 0 {
                    r matches Err(Fault::Vm { kind, .. }) && kind == Kind::DivideByZero
                } else if i64::MIN <= trunc_div(x, y) <= i64::MAX {
                    if p == Prim::Quot {
                        r == Ok::<Value, Fault>(Value::Int(trunc_div(x, y) as i64))
                    } else {
                        r == Ok::<Value, Fault>(Value::Int((x - trunc_div(x, y) * y) as i64))
                    }
                } else {
                    r matches Err(Fault::Vm { kind, .. }) && kind == Kind::Overflow
                }
            }
            &&& !numbers ==> r is Err
        },
        Prim::Lt | Prim::Gt | Prim::Le | Prim::Ge | Prim::NumEq => {
            &&& a[0] is Int && a[1] is Int ==> {
                let (x, y) = (a[0]->Int_0, a[1]->Int_0);
                r == Ok::<Value, Fault>(
                    Value::Bool(
                        match p {
                            Prim::Lt => x < y,
                            Prim::Gt => x > y,
                            Prim::Le => x <= y,
                            Prim::Ge => x >= y,
                            _ => x == y,
                        },
                    ),
                )
            }
            &&& !numbers ==> r is Err
            &&& a[0] matches Value::Float(x) ==> (a[1] matches Value::Float(y) ==> if float_is_nan(x) || float_is_nan(
                y,
            ) {
                r is Err
            } else {
                r == Ok::<Value, Fault>(Value::Bool(holds(p, float_order(x, y))))
            })
            &&& a[0] is Int ==> (a[1] matches Value::Float(y) ==> (float_is_nan(y) ==> r is Err) && (r matches Ok(v) ==> exists|
                x: u64,
            | !float_is_nan(x) && v == Value::Bool(holds(p, #[trigger] float_order(x, y)))))
            &&& a[1] is Int ==> (a[0] matches Value::Float(x) ==> (float_is_nan(x) ==> r is Err) && (r matches Ok(v) ==> exists|
                y: u64,
            | !float_is_nan(y) && v == Value::Bool(holds(p, #[trigger] float_order(x, y)))))
            &&& a[0] matches Value::Int(i) ==> (a[1] matches Value::Float(y) ==> (exact_int(i) && !float_is_nan(y) ==> r
                == Ok::<Value, Fault>(Value::Bool(holds(p, float_order(exact_float_bits(i), y))))))
            &&& a[1] matches Value::Int(i) ==> (a[0] matches Value::Float(x) ==> (exact_int(i) && !float_is_nan(x) ==> r
                == Ok::<Value, Fault>(Value::Bool(holds(p, float_order(x, exact_float_bits(i)))))))
            &&& match num_order(a[0], a[1]) {
                Some(c) => r == Ok::<Value, Fault>(Value::Bool(holds(p, c))),
                None => r is Err,
            }
        },
        Prim::Eq => r == Ok::<Value, Fault>(Value::Bool(all_equal_spec(a))),
        Prim::NotEq => r == Ok::<Value, Fault>(Value::Bool(!all_equal_spec(a))),
        Prim::Not => r == Ok::<Value, Fault>(Value::Bool(falsy_spec(a[0]))),
        Prim::Count => match a[0] {
            Value::Nil => r == Ok::<Value, Fault>(Value::Int(0)),
            Value::List(l) => r == Ok::<Value, Fault>(Value::Int(l@.len() as i64)),
            Value::Vec(l) => r == Ok::<Value, Fault>(Value::Int(l@.len() as i64)),
            Value::Dict(m) => r == Ok::<Value, Fault>(Value::Int(m@.len() as i64)),
            _ => r is Err,
        },
        Prim::First => match a[0] {
            Value::Nil => r == Ok::<Value, Fault>(Value::Nil),
            Value::List(l) => r == Ok::<Value, Fault>(if l@.len() > 0 { l@[0] } else { Value::Nil }),
            Value::Vec(l) => r == Ok::<Value, Fault>(if l@.len() > 0 { l@[0] } else { Value::Nil }),
            _ => r is Err,
        },
        Prim::Rest => match a[0] {
            Value::Nil => r matches Ok(Value::List(xs)) && xs@.len() == 0,
            Value::List(l) => r matches Ok(Value::List(xs)) && xs@ == (if l@.len() > 0 {
                l@.drop_first()
            } else {
                l@
            }),
            Value::Vec(l) => r matches Ok(Value::List(xs)) && xs@ == (if l@.len() > 0 {
                l@.drop_first()
            } else {
                l@
            }),
            _ => r is Err,
        },
        Prim::Nth => {
            &&& match (a[0], a[1]) {
                (Value::List(l), Value::Int(k)) => if 0 <= k < l@.len() {
                    r == Ok::<Value, Fault>(l@[k as int])
                } else {
                    r is Err
                },
                (Value::Vec(l), Value::Int(k)) => if 0 <= k < l@.len() {
                    r == Ok::<Value, Fault>(l@[k as int])
                } else {
                    r is Err
                },
                _ => true,
            }
            &&& match nth_spec(a[0], a[1]) {
                Some(v) => r == Ok::<Value, Fault>(v),
                None => r is Err,
            }
        },
        Prim::Get => {
            &&& match a[0] {
                Value::List(l) | Value::Vec(l) => r == Ok::<Value, Fault>(
                    match a[1] {
                        Value::Int(k) => if 0 <= k < l@.len() {
                            l@[k as int]
                        } else if a.len() > 2 {
                            a[2]
                        } else {
                            Value::Nil
                        },
                        _ => if a.len() > 2 { a[2] } else { Value::Nil },
                    },
                ),
                Value::Nil | Value::Dict(_) => true,
                _ => r is Err,
            }
            &&& a[0] is Nil ==> r == Ok::<Value, Fault>(if a.len() > 2 { a[2] } else { Value::Nil })
            &&& a[0] matches Value::Dict(m) ==> r == Ok::<Value, Fault>(
                match crate::value::find_key(a[1], m@) {
                    Some(j) => m@[j].1,
                    None => if a.len() > 2 { a[2] } else { Value::Nil },
                },
            )
        },
        Prim::Contains => {
            &&& a[0] is Nil ==> r == Ok::<Value, Fault>(Value::Bool(false))
            &&& a[0] matches Value::Dict(m) ==> r == Ok::<Value, Fault>(
                Value::Bool(crate::value::find_key(a[1], m@) is Some),
            )
            &&& match contains_spec(a[0], a[1]) {
                Some(b) => r == Ok::<Value, Fault>(Value::Bool(b)),
                None => r is Err,
            }
        },
        Prim::Empty => match a[0] {
            Value::Nil => r == Ok::<Value, Fault>(Value::Bool(true)),
            Value::List(l) => r == Ok::<Value, Fault>(Value::Bool(l@.len() == 0)),
            Value::Vec(l) => r == Ok::<Value, Fault>(Value::Bool(l@.len() == 0)),
            Value::Dict(m) => r == Ok::<Value, Fault>(Value::Bool(m@.len() == 0)),
            _ => r is Err,
        },
        Prim::Dissoc => match a[0] {
            Value::Nil => r == Ok::<Value, Fault>(Value::Nil),
            Value::Dict(m) => r matches Ok(Value::Dict(out)) && out@ == without_keys(m@, a.drop_first()),
            _ => r is Err,
        },
        Prim::Conj => match a[0] {
            Value::Nil => r matches Ok(Value::List(xs)) && xs@ == a.drop_first().reverse(),
            Value::List(l) => r matches Ok(Value::List(xs)) && xs@ == a.drop_first().reverse() + l@,
            Value::Vec(l) => r matches Ok(Value::Vec(xs)) && xs@ == l@ + a.drop_first(),
            Value::Dict(m) => match conj_pairs(m@, a.drop_first()) {
                Some(ps) => r matches Ok(Value::Dict(out)) && out@ == ps,
                None => r is Err,
            },
            _ => r is Err,
        },
        Prim::Assoc => {
            &&& a.len() % 2 == 0 ==> (r matches Err(Fault::Vm { kind, .. }) && kind == Kind::Arity)
            &&& a.len() % 2 == 1 ==> match a[0] {
                Value::Nil => r matches Ok(Value::Dict(out)) && out@ == assoc_pairs(Seq::empty(), a.drop_first()),
                Value::Dict(m) => r matches Ok(Value::Dict(out)) && out@ == assoc_pairs(m@, a.drop_first()),
                Value::Vec(x) => match assoc_items(x@, a.drop_first()) {
                    Some(ys) => r matches Ok(Value::Vec(out)) && out@ == ys,
                    None => r is Err,
                },
                _ => r is Err,
            }
        },
        Prim::Keys | Prim::Vals => {
            &&& a[0] matches Value::Dict(m) ==> (r matches Ok(Value::List(xs)) && xs@.len() == m@.len()
                && forall|j: int|
                0 <= j < m@.len() ==> #[trigger] xs@[j] == if p == Prim::Keys {
                    m@[j].0
                } else {
                    m@[j].1
                })
            &&& a[0] is Nil ==> (r matches Ok(Value::List(xs)) && xs@.len() == 0)
        },
        Prim::MakeCell => r matches Ok(Value::Cell(id)) && (vm.cells@.len() < u32::MAX ==> vm2.cell_spec(id)
            == Some(a[0])),
        Prim::CellGet => match a[0] {
            Value::Cell(id) => match vm.cell_spec(id) {
                Some(v) => r == Ok::<Value, Fault>(v),
                None => r is Err,
            },
            _ => r is Err,
        },
        Prim::List => r matches Ok(Value::List(xs)) && xs@ == a,
        Prim::Vector => r matches Ok(Value::Vec(xs)) && xs@ == a,
        Prim::ToVec => match a[0] {
            Value::List(l) => r matches Ok(Value::Vec(xs)) && xs@ == l@,
            Value::Vec(l) => r matches Ok(Value::Vec(xs)) && xs@ == l@,
            _ => r is Err,
        },
        Prim::HashMap => if a.len() % 2 != 0 {
            r matches Err(Fault::Vm { kind, .. }) && kind == Kind::Arity
        } else {
            r matches Ok(Value::Dict(out)) && out@ == assoc_pairs(Seq::empty(), a)
        },
        Prim::StrScalars => match a[0] {
            Value::Str(s) => r matches Ok(Value::Vec(xs)) && xs@.len() == s.0@.len() && forall|j: int|
                0 <= j < s.0@.len() ==> #[trigger] xs@[j] == Value::Int(s.0@[j] as u32 as i64),
            _ => r is Err,
        },
        Prim::BytesLen => match a[0] {
            Value::Bytes(b) => r == Ok::<Value, Fault>(Value::Int(b.0@.len() as i64)),
            _ => r is Err,
        },
        Prim::Println => {
            &&& r == Ok::<Value, Fault>(Value::Nil)
            &&& all_showable(a, vm.interner@.len()) ==> vm2.out@ == vm.out@ + shown_all(a, vm.interner@, seq![' '])
                + seq!['\n']
            &&& a.len() == 1 ==> (a[0] matches Value::Float(b) ==> (!float_is_nan(b) && !crate::value::float_is_infinite(b)
                ==> exists|t: Seq<char>|
                vm2.out@ == vm.out@ + t + seq!['\n'] && #[trigger] printer::sign_shown(b, t)
                    && printer::float_marked(t)))
        },
        Prim::Str => r matches Ok(Value::Str(t)) && (all_showable(a, vm.interner@.len()) ==> t.0@ == shown_all(
            a,
            vm.interner@,
            Seq::empty(),
        )),
        Prim::StrLen => match a[0] {
            Value::Str(t) => r == Ok::<Value, Fault>(Value::Int(byte_len(t.0@) as i64)),
            _ => r is Err,
        },
        Prim::StrSlice => sliced(a[0], a[1], a[2], r),
        Prim::ScalarsStr => from_scalars(a[0], r),
        Prim::StrBytes => match a[0] {
            Value::Str(t) => r matches Ok(Value::Bytes(b)) && b.0@ == vstd::utf8::encode_utf8(t.0@),
            _ => r is Err,
        },
        Prim::BytesStr => match a[0] {
            Value::Bytes(b) => if vstd::utf8::valid_utf8(b.0@) {
                r matches Ok(Value::Str(t)) && t.0@ == vstd::utf8::decode_utf8(b.0@)
            } else {
                r matches Err(Fault::Vm { kind, .. }) && kind == Kind::Type
            },
            _ => r is Err,
        },
        Prim::ParseNumber => match a[0] {
            Value::Str(t) => match reader::numeric_spec(t.0@) {
                reader::Numeric::NotNumber | reader::Numeric::NotWhole => r == Ok::<Value, Fault>(Value::Nil),
                reader::Numeric::Int(i) => r == Ok::<Value, Fault>(Value::Int(i)),
                reader::Numeric::NonFinite(b) => r == Ok::<Value, Fault>(Value::Float(b)),
                reader::Numeric::TooBig => r matches Err(Fault::Vm { kind, .. }) && kind == Kind::Type,
                reader::Numeric::NeedsFloat => true,
            },
            _ => r is Err,
        },
        Prim::Gensym => match gensym_prefix(a, vm.interner@) {
            Some(pre) => r matches Ok(Value::Sym(id)) && (vm2.interner@.len() <= u32::MAX ==> vm2.interner@[id.0 as int]
                == pre + seq!['_', '_'] + crate::text::nat_digits(vm2.gensym as nat)),
            None => r is Err,
        },
        Prim::IoIsOpen => a[0] matches Value::Handle(id) ==> r == Ok::<Value, Fault>(
            Value::Bool(vm.host_spec(id) is Some),
        ),
        Prim::IoClose => a[0] matches Value::Handle(id) ==> vm2.host_spec(id) is None && (r is Ok
            <==> vm.handles.current(id)),
        Prim::IoOpen => crate::host::opened(vm, vm2, a[0], a[1], r),
        Prim::IoRead => crate::host::read_some(vm, a[0], a[1], r),
        Prim::IoReadAll => crate::host::read_rest(vm, a[0], r),
        Prim::IoWrite => crate::host::written(vm, vm2, a[0], a[1], r),
        Prim::Concat => match concat_spec(a) {
            Some(xs) => r matches Ok(Value::List(out)) && out@ == xs,
            None => r is Err,
        },
        _ => true,
    }
}

/// Subtraction folded from the left is the first value less the sum of
/// the rest.
proof fn lemma_sub_fold_sum(a: Seq<Value>)
    requires
        a.len() >= 1,
    ensures
        sub_fold(a) == (a[0]->Int_0 as int) - int_fold(a.drop_first(), 0, false),
    decreases a.len(),
{
    if a.len() > 1 {
        lemma_sub_fold_sum(a.drop_last());
        assert(a.drop_first().drop_last() =~= a.drop_last().drop_first());
        assert(a.drop_first().last() == a.last());
    } else {
        assert(a.drop_first().len() == 0);
    }
}

/// `-` on two or more integers takes every argument after the first away
/// from it: whenever `(- a0 a1 ... an)` succeeds it is `a0 - (a1 + ... + an)`,
/// and it fails exactly when a running difference leaves 64 bits.
pub proof fn lemma_minus_takes_away_the_rest<P: Platform>(
    vm: Vm<P>,
    vm2: Vm<P>,
    a: Seq<Value>,
    r: Result<Value, Fault>,
)
    requires
        a.len() >= 2,
        forall|i: int| 0 <= i < a.len() ==> (#[trigger] a[i]) is Int,
        prim_post(vm, vm2, Prim::Sub, a, r),
    ensures
        r matches Ok(v) ==> v == Value::Int(((a[0]->Int_0 as int) - int_fold(a.drop_first(), 0, false)) as i64),
        r is Ok <==> forall|k: int| 1 <= k <= a.len() ==> i64::MIN <= #[trigger] sub_fold(a.take(k)) <= i64::MAX,
{
    lemma_sub_fold_sum(a);
}

/// `get` on a list or vector agrees with `nth` wherever `nth` finds an
/// item, and gives the default (the third argument, else `nil`) wherever it
/// does not.
pub proof fn lemma_get_agrees_with_nth<P: Platform>(
    vm: Vm<P>,
    vm2: Vm<P>,
    vm3: Vm<P>,
    vm4: Vm<P>,
    coll: Value,
    key: Value,
    default: Value,
    got: Result<Value, Fault>,
    nth: Result<Value, Fault>,
)
    requires
        coll is List || coll is Vec,
        key is Int,
        prim_post(vm, vm2, Prim::Get, seq![coll, key, default], got),
        prim_post(vm3, vm4, Prim::Nth, seq![coll, key], nth),
    ensures
        nth is Ok ==> got == nth,
        nth is Err ==> got == Ok::<Value, Fault>(default),
{
}

/// `println` of a finite float and of its negation emit lines that start
/// differently: the line starts with a minus exactly when the float's sign
/// bit is set.
pub proof fn lemma_println_shows_the_sign<P: Platform>(
    vm: Vm<P>,
    vm2: Vm<P>,
    vm3: Vm<P>,
    vm4: Vm<P>,
    b: u64,
    r: Result<Value, Fault>,
    s: Result<Value, Fault>,
)
    requires
        !float_is_nan(b),
        !crate::value::float_is_infinite(b),
        prim_post(vm, vm2, Prim::Println, seq![Value::Float(b)], r),
        prim_post(vm3, vm4, Prim::Println, seq![Value::Float(b ^ 0x8000_0000_0000_0000u64)], s),
    ensures
        vm2.out@.len() > vm.out@.len() + 1,
        vm4.out@.len() > vm3.out@.len() + 1,
        (vm2.out@[vm.out@.len() as int] == '-') == ((b >> 63u64) == 1),
        (vm4.out@[vm3.out@.len() as int] == '-') == ((b >> 63u64) == 0),
{
    let c = b ^ 0x8000_0000_0000_0000u64;
    assert((c & 0x7ff0_0000_0000_0000u64) == (b & 0x7ff0_0000_0000_0000u64) && (c & 0x000f_ffff_ffff_ffffu64) == (b
        & 0x000f_ffff_ffff_ffffu64) && (c & 0x7fff_ffff_ffff_ffffu64) == (b & 0x7fff_ffff_ffff_ffffu64) && ((c >> 63u64)
        == 1) == ((b >> 63u64) == 0)) by (bit_vector)
        requires
            c == b ^ 0x8000_0000_0000_0000u64,
    ;
    let a1 = seq![Value::Float(b)];
    let a2 = seq![Value::Float(c)];
    assert(a1[0] == Value::Float(b));
    assert(a2[0] == Value::Float(c));
    let t = choose|t: Seq<char>| vm2.out@ == vm.out@ + t + seq!['\n'] && #[trigger] printer::sign_shown(b, t)
        && printer::float_marked(t);
    assert(vm2.out@[vm.out@.len() as int] == t[0]);
    let u = choose|u: Seq<char>| vm4.out@ == vm3.out@ + u + seq!['\n'] && #[trigger] printer::sign_shown(c, u)
        && printer::float_marked(u);
    assert(vm4.out@[vm3.out@.len() as int] == u[0]);
}

/// On a list or vector, `contains?` answers whether `nth` finds an item
/// with the same key: it asks after an index, not after a value.
pub proof fn lemma_contains_agrees_with_nth<P: Platform>(
    vm: Vm<P>,
    vm2: Vm<P>,
    vm3: Vm<P>,
    vm4: Vm<P>,
    coll: Value,
    key: Value,
    found: Result<Value, Fault>,
    nth: Result<Value, Fault>,
)
    requires
        coll is List || coll is Vec,
        prim_post(vm, vm2, Prim::Contains, seq![coll, key], found),
        prim_post(vm3, vm4, Prim::Nth, seq![coll, key], nth),
    ensures
        found == Ok::<Value, Fault>(Value::Bool(nth is Ok)),
{
}

/// `##Inf` orders at or above, and `##-Inf` at or below, every float that is
/// not `##NaN`, whichever operand it is.
proof fn lemma_infinities_are_extremes(x: u64)
    requires
        !float_is_nan(x),
    ensures
        float_order(x, crate::value::POS_INFINITY_BITS) != Cmp::Greater,
        float_order(crate::value::POS_INFINITY_BITS, x) != Cmp::Less,
        float_order(x, crate::value::NEG_INFINITY_BITS) != Cmp::Less,
        float_order(crate::value::NEG_INFINITY_BITS, x) != Cmp::Greater,
{
    assert(!((x & 0x7ff0_0000_0000_0000u64) == 0x7ff0_0000_0000_0000u64 && (x & 0x000f_ffff_ffff_ffffu64) != 0)
        ==> (x & 0x7fff_ffff_ffff_ffffu64) <= 0x7ff0_0000_0000_0000u64) by (bit_vector);
    assert((x >> 63u64) == 0 || (x >> 63u64) == 1) by (bit_vector);
    assert(0x7ff0_0000_0000_0000u64 & 0x7fff_ffff_ffff_ffffu64 == 0x7ff0_0000_0000_0000u64) by (bit_vector);
    assert(0xfff0_0000_0000_0000u64 & 0x7fff_ffff_ffff_ffffu64 == 0x7ff0_0000_0000_0000u64) by (bit_vector);
    assert(0x7ff0_0000_0000_0000u64 >> 63u64 == 0) by (bit_vector);
    assert(0xfff0_0000_0000_0000u64 >> 63u64 == 1) by (bit_vector);
}

/// No integer compares above `##Inf` or below `##-Inf`, whichever side of
/// the comparison it is written on: `(> i ##Inf)`, `(< ##Inf i)`,
/// `(< i ##-Inf)` and `(> ##-Inf i)` are never true. An ordering that swapped
/// a mixed pair's operands would make each of them true for every finite `i`.
pub proof fn lemma_no_integer_passes_an_infinity<P: Platform>(
    vm: Vm<P>,
    vm2: Vm<P>,
    i: i64,
    above: Result<Value, Fault>,
    under: Result<Value, Fault>,
    below: Result<Value, Fault>,
    over: Result<Value, Fault>,
)
    requires
        prim_post(vm, vm2, Prim::Gt, seq![Value::Int(i), Value::Float(crate::value::POS_INFINITY_BITS)], above),
        prim_post(vm, vm2, Prim::Lt, seq![Value::Float(crate::value::POS_INFINITY_BITS), Value::Int(i)], under),
        prim_post(vm, vm2, Prim::Lt, seq![Value::Int(i), Value::Float(crate::value::NEG_INFINITY_BITS)], below),
        prim_post(vm, vm2, Prim::Gt, seq![Value::Float(crate::value::NEG_INFINITY_BITS), Value::Int(i)], over),
    ensures
        above matches Ok(v) ==> v == Value::Bool(false),
        under matches Ok(v) ==> v == Value::Bool(false),
        below matches Ok(v) ==> v == Value::Bool(false),
        over matches Ok(v) ==> v == Value::Bool(false),
{
    let pos = crate::value::POS_INFINITY_BITS;
    let neg = crate::value::NEG_INFINITY_BITS;
    assert forall|x: u64| !float_is_nan(x) implies float_order(x, pos) != Cmp::Greater && float_order(pos, x)
        != Cmp::Less && float_order(x, neg) != Cmp::Less && float_order(neg, x) != Cmp::Greater by {
        lemma_infinities_are_extremes(x);
    }
}

/// Comparing two floats the other way round gives the mirrored answer:
/// `(< x y)` is `(> y x)` and `(<= x y)` is `(>= y x)`.
pub proof fn lemma_float_order_mirrors<P: Platform>(
    vm: Vm<P>,
    vm2: Vm<P>,
    x: u64,
    y: u64,
    lt: Result<Value, Fault>,
    gt: Result<Value, Fault>,
    le: Result<Value, Fault>,
    ge: Result<Value, Fault>,
)
    requires
        prim_post(vm, vm2, Prim::Lt, seq![Value::Float(x), Value::Float(y)], lt),
        prim_post(vm, vm2, Prim::Gt, seq![Value::Float(y), Value::Float(x)], gt),
        prim_post(vm, vm2, Prim::Le, seq![Value::Float(x), Value::Float(y)], le),
        prim_post(vm, vm2, Prim::Ge, seq![Value::Float(y), Value::Float(x)], ge),
    ensures
        !float_is_nan(x) && !float_is_nan(y) ==> lt == gt && le == ge,
        float_is_nan(x) || float_is_nan(y) ==> lt is Err && gt is Err && le is Err && ge is Err,
{
    if !float_is_nan(x) && !float_is_nan(y) {
        lemma_float_order_flips(x, y);
    }
}

/// An integer and a float compare the same whichever is written first:
/// `(< i y)` is `(> y i)` and `(<= i y)` is `(>= y i)`, for every integer of
/// magnitude below `2^53` and every float but `##NaN`.
pub proof fn lemma_mixed_order_mirrors<P: Platform>(
    vm: Vm<P>,
    vm2: Vm<P>,
    i: i64,
    y: u64,
    lt: Result<Value, Fault>,
    gt: Result<Value, Fault>,
    le: Result<Value, Fault>,
    ge: Result<Value, Fault>,
)
    requires
        exact_int(i),
        !float_is_nan(y),
        prim_post(vm, vm2, Prim::Lt, seq![Value::Int(i), Value::Float(y)], lt),
        prim_post(vm, vm2, Prim::Gt, seq![Value::Float(y), Value::Int(i)], gt),
        prim_post(vm, vm2, Prim::Le, seq![Value::Int(i), Value::Float(y)], le),
        prim_post(vm, vm2, Prim::Ge, seq![Value::Float(y), Value::Int(i)], ge),
    ensures
        lt is Ok && lt == gt,
        le is Ok && le == ge,
{
    lemma_float_order_flips(exact_float_bits(i), y);
}

/// `<`, `>`, `<=`, `>=` and `==` on the same two values cannot disagree
/// about what the comparison means: all five refuse together, or one order
/// `c` of the two values gives each of their answers.
pub proof fn lemma_comparisons_agree<P: Platform>(
    vm: Vm<P>,
    vm2: Vm<P>,
    x: Value,
    y: Value,
    lt: Result<Value, Fault>,
    gt: Result<Value, Fault>,
    le: Result<Value, Fault>,
    ge: Result<Value, Fault>,
    eq: Result<Value, Fault>,
)
    requires
        prim_post(vm, vm2, Prim::Lt, seq![x, y], lt),
        prim_post(vm, vm2, Prim::Gt, seq![x, y], gt),
        prim_post(vm, vm2, Prim::Le, seq![x, y], le),
        prim_post(vm, vm2, Prim::Ge, seq![x, y], ge),
        prim_post(vm, vm2, Prim::NumEq, seq![x, y], eq),
    ensures
        lt is Ok == eq is Ok && gt is Ok == eq is Ok && le is Ok == eq is Ok && ge is Ok == eq is Ok,
        eq is Ok ==> exists|c: Cmp|
            lt == Ok::<Value, Fault>(Value::Bool(#[trigger] holds(Prim::Lt, c))) && gt == Ok::<Value, Fault>(
                Value::Bool(holds(Prim::Gt, c)),
            ) && le == Ok::<Value, Fault>(Value::Bool(holds(Prim::Le, c))) && ge == Ok::<Value, Fault>(
                Value::Bool(holds(Prim::Ge, c)),
            ) && eq == Ok::<Value, Fault>(Value::Bool(holds(Prim::NumEq, c))),
{
    let a = seq![x, y];
    assert(a[0] == x && a[1] == y);
    if let Some(c) = num_order(x, y) {
        assert(lt == Ok::<Value, Fault>(Value::Bool(holds(Prim::Lt, c))));
    }
}

/// Two numbers compare the same whichever is written first: `(< x y)` is
/// `(> y x)` and `(<= x y)` is `(>= y x)`, and either both refuse or
/// neither does.
pub proof fn lemma_order_mirrors<P: Platform>(
    vm: Vm<P>,
    vm2: Vm<P>,
    x: Value,
    y: Value,
    lt: Result<Value, Fault>,
    gt: Result<Value, Fault>,
    le: Result<Value, Fault>,
    ge: Result<Value, Fault>,
)
    requires
        prim_post(vm, vm2, Prim::Lt, seq![x, y], lt),
        prim_post(vm, vm2, Prim::Gt, seq![y, x], gt),
        prim_post(vm, vm2, Prim::Le, seq![x, y], le),
        prim_post(vm, vm2, Prim::Ge, seq![y, x], ge),
    ensures
        lt is Ok == gt is Ok,
        le is Ok == ge is Ok,
        lt is Ok ==> lt == gt,
        le is Ok ==> le == ge,
{
    let a = seq![x, y];
    let b = seq![y, x];
    assert(a[0] == x && a[1] == y && b[0] == y && b[1] == x);
    match (x, y) {
        (Value::Float(u), Value::Float(v)) => lemma_float_order_flips(u, v),
        (Value::Int(i), Value::Float(v)) => lemma_float_order_flips(nearest_float_bits(i), v),
        (Value::Float(u), Value::Int(j)) => lemma_float_order_flips(u, nearest_float_bits(j)),
        _ => {},
    }
}

/// The order of two floats read the other way round is the reverse order.
proof fn lemma_float_order_flips(x: u64, y: u64)
    ensures
        (float_order(x, y) == Cmp::Less) == (float_order(y, x) == Cmp::Greater),
        (float_order(x, y) == Cmp::Greater) == (float_order(y, x) == Cmp::Less),
{
}

/// The five numeric comparisons, each read off one `compare`.
fn ordered<P: Platform>(vm: &Vm<P>, p: Prim, a: &Vec<Value>) -> (r: Result<Value, Fault>)
    requires
        a@.len() == 2,
        p == Prim::Lt || p == Prim::Gt || p == Prim::Le || p == Prim::Ge || p == Prim::NumEq,
    ensures
        prim_post(*vm, *vm, p, a@, r),
{
    let op = match p {
        Prim::Lt => "<",
        Prim::Gt => ">",
        Prim::Le => "<=",
        Prim::Ge => ">=",
        _ => "==",
    };
    match compare(&a[0], &a[1], op) {
        Ok(c) => Ok(
            Value::Bool(
                match p {
                    Prim::Lt => c == Cmp::Less,
                    Prim::Gt => c == Cmp::Greater,
                    Prim::Le => c != Cmp::Greater,
                    Prim::Ge => c != Cmp::Less,
                    _ => c == Cmp::Equal,
                },
            ),
        ),
        Err(e) => Err(e),
    }
}

/// Run a primitive on arguments its arity admits.
#[verifier::rlimit(40)]
pub fn call<P: Platform>(vm: &mut Vm<P>, p: Prim, a: &Vec<Value>) -> (r: Result<Value, Fault>)
    requires
        a@.len() >= prim_arity_spec(p).0,
        !prim_arity_spec(p).1 ==> a@.len() == prim_arity_spec(p).0,
    ensures
        prim_post(*old(vm), *final(vm), p, a@, r),
{
    match p {
        Prim::Add => fold(vm, a, 0, FloatOp::Add, "+"),
        Prim::Mul => fold(vm, a, 1, FloatOp::Mul, "*"),
        Prim::Sub => subtract(vm, a),
        Prim::Div => divide(vm, a),
        Prim::Quot => int_div(&a[0], &a[1], true),
        Prim::Rem => int_div(&a[0], &a[1], false),
        Prim::Lt | Prim::Gt | Prim::Le | Prim::Ge | Prim::NumEq => ordered(vm, p, a),
        Prim::Eq => Ok(Value::Bool(all_equal(a))),
        Prim::NotEq => Ok(Value::Bool(!all_equal(a))),
        Prim::Not => Ok(Value::Bool(falsy(&a[0]))),
        Prim::Count => count(&a[0]),
        Prim::First => first(&a[0]),
        Prim::Rest => rest(&a[0]),
        Prim::Nth => nth(&a[0], &a[1]),
        Prim::Get => get(a),
        Prim::Contains => contains(&a[0], &a[1]),
        Prim::Empty => empty(&a[0]),
        Prim::Conj => conj(a),
        Prim::Assoc => assoc(a),
        Prim::Dissoc => dissoc(a),
        Prim::Keys => map_part(&a[0], "keys", true),
        Prim::Vals => map_part(&a[0], "vals", false),
        Prim::MakeCell => Ok(Value::Cell(vm.new_cell(a[0].clone()))),
        Prim::CellGet => match &a[0] {
            Value::Cell(id) => match vm.cell(*id) {
                Some(v) => Ok(v.clone()),
                None => Err(fault(Kind::Internal, copy_str("cell is no longer live"))),
            },
            other => Err(need("cell-get", "a cell", other)),
        },
        Prim::Str => {
            let mut out = String::new();
            let mut i: usize = 0;
            let ghost names = vm.interner@;
            let ghost ok = all_showable(a@, names.len());
            while i < a.len()
                invariant
                    i <= a@.len(),
                    names == vm.interner@,
                    ok == all_showable(a@, names.len()),
                    ok ==> out@ == shown_all(a@.take(i as int), names, Seq::empty()),
                decreases a@.len() - i,
            {
                let t = printer::display(&a[i], &vm.interner, &vm.platform);
                let ghost before = out@;
                push_str(&mut out, t.as_str());
                proof {
                    if ok {
                        let tk = a@.take(i + 1);
                        assert(tk.drop_last() =~= a@.take(i as int));
                        assert(tk.last() == a@[i as int]);
                        assert(a@[i as int] is Str || printer::printable(a@[i as int], names.len()));
                        assert(t@ == shown(a@[i as int], names));
                        if i == 0 {
                            assert(before =~= Seq::<char>::empty());
                            assert(out@ =~= shown(tk[0], names));
                        } else {
                            assert(out@ =~= before + Seq::<char>::empty() + shown(tk.last(), names));
                        }
                    }
                }
                i = i + 1;
            }
            proof {
                assert(a@.take(a@.len() as int) =~= a@);
            }
            Ok(Value::Str(Rc::new(StrObj(out))))
        },
        Prim::StrLen => match &a[0] {
            Value::Str(s) => {
                proof {
                    crate::text::lemma_utf8_len_encoding(s.0@);
                }
                Ok(Value::Int(#[verifier::truncate] (s.0.as_str().len() as i64)))
            },
            other => Err(need("str-len", "a string", other)),
        },
        Prim::StrSlice => str_slice(&a[0], &a[1], &a[2]),
        Prim::ParseNumber => match &a[0] {
            Value::Str(s) => match reader::parse_number(s.0.as_str(), &vm.platform) {
                None => Ok(Value::Nil),
                Some(Ok(v)) => Ok(v),
                Some(Err(msg)) => Err(fault(Kind::Type, msg)),
            },
            other => Err(need("parse-number", "a string", other)),
        },
        Prim::StrScalars => match &a[0] {
            Value::Str(s) => {
                let cs = chars_of(s.0.as_str());
                let mut items: Vec<Value> = Vec::new();
                let mut i: usize = 0;
                while i < cs.len()
                    invariant
                        i <= cs@.len(),
                        items@.len() == i,
                        forall|j: int| 0 <= j < i ==> #[trigger] items@[j] == Value::Int(cs@[j] as u32 as i64),
                    decreases cs@.len() - i,
                {
                    items.push(Value::Int(cs[i] as u32 as i64));
                    i = i + 1;
                }
                Ok(Value::Vec(Rc::new(items)))
            },
            other => Err(need("str-scalars", "a string", other)),
        },
        Prim::ScalarsStr => scalars_str(&a[0]),
        Prim::StrBytes => match &a[0] {
            Value::Str(s) => Ok(Value::Bytes(Rc::new(BytesObj(s.0.as_str().as_bytes_vec())))),
            other => Err(need("str-bytes", "a string", other)),
        },
        Prim::BytesStr => match &a[0] {
            Value::Bytes(b) => match utf8_text(&b.0) {
                Ok(s) => Ok(Value::Str(Rc::new(StrObj(s)))),
                Err(at) => {
                    let n = nat_to_text(at as u64);
                    Err(fault(Kind::Type, cat("`bytes-str`: not valid UTF-8 at byte ", n.as_str())))
                },
            },
            other => Err(need("bytes-str", "bytes", other)),
        },
        Prim::BytesLen => match &a[0] {
            Value::Bytes(b) => Ok(Value::Int(#[verifier::truncate] (b.0.len() as i64))),
            other => Err(need("bytes-len", "bytes", other)),
        },
        Prim::Println => {
            let mut line = String::new();
            let mut i: usize = 0;
            let ghost names = vm.interner@;
            let ghost ok = all_showable(a@, names.len());
            while i < a.len()
                invariant
                    i <= a@.len(),
                    names == vm.interner@,
                    ok == all_showable(a@, names.len()),
                    ok ==> line@ == shown_all(a@.take(i as int), names, seq![' ']),
                    i == 0 ==> line@.len() == 0,
                    a@.len() == 1 && i == 1 ==> (a@[0] matches Value::Float(b) ==> (!float_is_nan(b)
                        && !crate::value::float_is_infinite(b) ==> printer::sign_shown(b, line@) && printer::float_marked(line@))),
                decreases a@.len() - i,
            {
                let ghost before = line@;
                if i > 0 {
                    push_char(&mut line, ' ');
                }
                let t = printer::display(&a[i], &vm.interner, &vm.platform);
                push_str(&mut line, t.as_str());
                proof {
                    if i == 0 {
                        assert(line@ =~= t@);
                    }
                }
                proof {
                    if ok {
                        let tk = a@.take(i + 1);
                        assert(tk.drop_last() =~= a@.take(i as int));
                        assert(tk.last() == a@[i as int]);
                        assert(a@[i as int] is Str || printer::printable(a@[i as int], names.len()));
                        assert(t@ == shown(a@[i as int], names));
                        if i == 0 {
                            assert(before =~= Seq::<char>::empty());
                            assert(line@ =~= shown(tk[0], names));
                        } else {
                            assert(line@ =~= before + seq![' '] + shown(tk.last(), names));
                        }
                    }
                }
                i = i + 1;
            }
            proof {
                assert(a@.take(a@.len() as int) =~= a@);
            }
            let ghost out0 = vm.out@;
            vm.emit(line.as_str());
            vm.emit("\n");
            proof {
                reveal_strlit("\n");
                assert("\n"@ =~= seq!['\n']);
                assert(vm.out@ =~= out0 + line@ + seq!['\n']);
                if a@.len() == 1 {
                    if let Value::Float(b) = a@[0] {
                        if !float_is_nan(b) && !crate::value::float_is_infinite(b) {
                            assert(printer::sign_shown(b, line@));
                        }
                    }
                }
            }
            Ok(Value::Nil)
        },
        Prim::Gensym => {
            // The explicit half of capture avoidance, for a name a macro has
            // to compute.
            let prefix = if a.len() == 0 {
                copy_str("G")
            } else {
                match &a[0] {
                    Value::Str(s) => copy_str(s.0.as_str()),
                    Value::Sym(s) => copy_str(vm.interner.name_or_empty(s.0)),
                    other => {
                        return Err(need("gensym", "a string or symbol prefix", other));
                    },
                }
            };
            let name = vm.gensym_name(prefix.as_str());
            let ghost before = vm.interner@;
            let sym = vm.interner.sym(name.as_str());
            proof {
                crate::value::lemma_last_index_of(before, name@);
            }
            Ok(sym)
        },
        Prim::List => Ok(Value::List(Rc::new(crate::value::copy_values(a)))),
        Prim::Concat => concat(a),
        Prim::ToVec => match &a[0] {
            Value::List(l) => Ok(Value::Vec(Rc::new(crate::value::copy_values(l)))),
            Value::Vec(x) => Ok(Value::Vec(x.clone())),
            other => Err(need("vec", "a list or vector", other)),
        },
        Prim::Vector => Ok(Value::Vec(Rc::new(crate::value::copy_values(a)))),
        Prim::HashMap => {
            if a.len() % 2 != 0 {
                return Err(fault(Kind::Arity, copy_str("`hash-map` needs a value for every key")));
            }
            // Last write wins, so a map never holds two equal keys.
            let mut pairs: Vec<(Value, Value)> = Vec::new();
            let mut i: usize = 0;
            proof {
                assert(a@.subrange(0, a@.len() as int) =~= a@);
            }
            while a.len() - i >= 2
                invariant
                    i <= a@.len(),
                    (a@.len() - i) % 2 == 0,
                    assoc_pairs(pairs@, a@.subrange(i as int, a@.len() as int)) == assoc_pairs(Seq::empty(), a@),
                decreases a@.len() - i,
            {
                proof {
                    let here = a@.subrange(i as int, a@.len() as int);
                    assert(here.subrange(2, here.len() as int) =~= a@.subrange(i + 2, a@.len() as int));
                }
                put(&mut pairs, a[i].clone(), a[i + 1].clone());
                i = i + 2;
            }
            Ok(Value::Dict(Rc::new(pairs)))
        },
        Prim::IoOpen => crate::host::io_open(vm, &a[0], &a[1]),
        Prim::IoClose => crate::host::io_close(vm, &a[0]),
        Prim::IoIsOpen => crate::host::io_is_open(vm, &a[0]),
        Prim::IoRead => crate::host::io_read(vm, &a[0], &a[1]),
        Prim::IoReadAll => crate::host::io_read_all(vm, &a[0]),
        Prim::IoWrite => crate::host::io_write(vm, &a[0], &a[1]),
        Prim::Adapter(which) => P::call_adapter(vm, which, a),
    }
}

// --- shared helpers ------------------------------------------------------------

/// "`op` needs what, not a kind".
pub fn need(op: &str, what: &str, v: &Value) -> (f: Fault)
    ensures
        f matches Fault::Vm { kind, .. } && kind == Kind::Type,
{
    let mut msg = cat3("`", op, "` needs ");
    push_str(&mut msg, what);
    push_str(&mut msg, ", not a ");
    push_str(&mut msg, kind_name(v));
    fault(Kind::Type, msg)
}

/// Only `nil` and `false` are falsy.
pub open spec fn falsy_spec(v: Value) -> bool {
    v is Nil || v == Value::Bool(false)
}

fn falsy(v: &Value) -> (r: bool)
    ensures
        r == falsy_spec(*v),
{
    match v {
        Value::Nil => true,
        Value::Bool(b) => !*b,
        _ => false,
    }
}

/// Every neighbouring pair is `=`.
pub open spec fn all_equal_spec(a: Seq<Value>) -> bool {
    forall|i: int| 0 <= i < a.len() - 1 ==> lang_eq(#[trigger] a[i], a[i + 1])
}

fn all_equal(a: &Vec<Value>) -> (r: bool)
    ensures
        r == all_equal_spec(a@),
{
    let mut i: usize = 1;
    while i < a.len()
        invariant
            1 <= i,
            forall|j: int| 0 <= j < i - 1 && j < a@.len() - 1 ==> lang_eq(#[trigger] a@[j], a@[j + 1]),
        decreases a@.len() - i,
    {
        if !equal(&a[i - 1], &a[i]) {
            return false;
        }
        i = i + 1;
    }
    true
}

/// The items of a sequence; `nil` is the empty one.
fn seq_items(v: &Value, op: &str) -> (r: Result<Vec<Value>, Fault>)
    ensures
        match *v {
            Value::Nil => r matches Ok(xs) && xs@.len() == 0,
            Value::List(l) => r matches Ok(xs) && xs@ == l@,
            Value::Vec(l) => r matches Ok(xs) && xs@ == l@,
            _ => r is Err,
        },
{
    match v {
        Value::Nil => Ok(Vec::new()),
        Value::List(l) => Ok(crate::value::copy_values(l)),
        Value::Vec(x) => Ok(crate::value::copy_values(x)),
        other => Err(need(op, "a sequence", other)),
    }
}

/// A non-negative integer index.
fn index(v: &Value, op: &str) -> (r: Result<u64, Fault>)
    ensures
        match *v {
            Value::Int(i) => if i >= 0 {
                r == Ok::<u64, Fault>(i as u64)
            } else {
                r is Err
            },
            _ => r is Err,
        },
{
    match v {
        Value::Int(i) => {
            if *i >= 0 {
                Ok(*i as u64)
            } else {
                let t = int_to_text(*i);
                Err(fault(Kind::Type, cat3("`", op, cat("` needs a non-negative index, not ", t.as_str()).as_str())))
            }
        },
        other => Err(need(op, "an integer index", other)),
    }
}

/// A map's pairs after `k` is bound to `v`: an equal key keeps its place
/// and takes the new value, a new key goes last.
pub open spec fn put_spec(ps: Seq<(Value, Value)>, k: Value, v: Value) -> Seq<(Value, Value)> {
    match crate::value::find_key(k, ps) {
        Some(j) => ps.update(j, (ps[j].0, v)),
        None => ps.push((k, v)),
    }
}

/// The pairs after binding each key of `kvs` (key, value, key, value, …)
/// in turn.
pub open spec fn assoc_pairs(ps: Seq<(Value, Value)>, kvs: Seq<Value>) -> Seq<(Value, Value)>
    decreases kvs.len(),
{
    if kvs.len() < 2 {
        ps
    } else {
        assoc_pairs(put_spec(ps, kvs[0], kvs[1]), kvs.subrange(2, kvs.len() as int))
    }
}

/// The items after setting each index of `kvs` (index, value, …) in turn;
/// `None` once an index is not an integer naming an item.
pub open spec fn assoc_items(xs: Seq<Value>, kvs: Seq<Value>) -> Option<Seq<Value>>
    decreases kvs.len(),
{
    if kvs.len() < 2 {
        Some(xs)
    } else {
        match kvs[0] {
            Value::Int(k) => if 0 <= k < xs.len() {
                assoc_items(xs.update(k as int, kvs[1]), kvs.subrange(2, kvs.len() as int))
            } else {
                None
            },
            _ => None,
        }
    }
}

/// The items of every list or vector in `a`, in order (`nil` adds none);
/// `None` when something else is among them.
pub open spec fn concat_spec(a: Seq<Value>) -> Option<Seq<Value>>
    decreases a.len(),
{
    if a.len() == 0 {
        Some(Seq::empty())
    } else {
        match concat_spec(a.drop_last()) {
            None => None,
            Some(xs) => match a.last() {
                Value::List(l) => Some(xs + l@),
                Value::Vec(l) => Some(xs + l@),
                Value::Nil => Some(xs),
                _ => None,
            },
        }
    }
}

/// Last write wins, and a map never holds two equal keys.
pub fn put(pairs: &mut Vec<(Value, Value)>, k: Value, v: Value)
    ensures
        final(pairs)@ == put_spec(old(pairs)@, k, v),
{
    match find_key_index(&k, pairs) {
        Some(i) => {
            proof {
                crate::value::lemma_find_key_range(k, pairs@);
            }
            let key = pairs[i].0.clone();
            pairs.set(i, (key, v));
        },
        None => {
            pairs.push((k, v));
        },
    }
}

// --- numbers ---------------------------------------------------------------------

/// One arithmetic operand: a float anywhere makes the whole operation a
/// float one.
#[derive(Clone, Copy, PartialEq, Eq, Debug, Structural)]
enum Num {
    Int(i64),
    Float(u64),
}

fn num(v: &Value, op: &str) -> (r: Result<Num, Fault>)
    ensures
        match *v {
            Value::Int(i) => r == Ok::<Num, Fault>(Num::Int(i)),
            Value::Float(b) => r == Ok::<Num, Fault>(Num::Float(b)),
            _ => r is Err,
        },
{
    match v {
        Value::Int(i) => Ok(Num::Int(*i)),
        Value::Float(b) => Ok(Num::Float(*b)),
        other => Err(need(op, "an integer", other)),
    }
}

fn as_float<P: Platform>(p: &P, n: Num) -> (r: u64)
    ensures
        n matches Num::Float(b) ==> r == b,
{
    match n {
        Num::Int(i) => p.int_to_float(i),
        Num::Float(b) => b,
    }
}

fn number(n: Num) -> (r: Value)
    ensures
        match n {
            Num::Int(i) => r == Value::Int(i),
            Num::Float(b) => r == Value::Float(b),
        },
{
    match n {
        Num::Int(i) => Value::Int(i),
        Num::Float(b) => Value::Float(b),
    }
}

/// "`op` overflowed a 64-bit integer".
pub fn overflow(op: &str) -> (f: Fault)
    ensures
        f matches Fault::Vm { kind, .. } && kind == Kind::Overflow,
{
    fault(Kind::Overflow, cat3("`", op, "` overflowed a 64-bit integer"))
}

/// The sum or product of integer arguments, while it stays an integer.
pub open spec fn int_fold(a: Seq<Value>, init: int, mul: bool) -> int
    decreases a.len(),
{
    if a.len() == 0 {
        init
    } else {
        let acc = int_fold(a.drop_last(), init, mul);
        if mul {
            acc * (a.last()->Int_0 as int)
        } else {
            acc + (a.last()->Int_0 as int)
        }
    }
}

/// `a[0] - a[1] - ... - a[n]` over integer arguments, folded from the left.
pub open spec fn sub_fold(a: Seq<Value>) -> int
    decreases a.len(),
{
    if a.len() == 0 {
        0
    } else if a.len() == 1 {
        a[0]->Int_0 as int
    } else {
        sub_fold(a.drop_last()) - (a.last()->Int_0 as int)
    }
}

/// Every running difference of an integer subtraction fits in 64 bits.
pub open spec fn subs_fit(a: Seq<Value>) -> bool {
    forall|k: int| 1 <= k <= a.len() ==> i64::MIN <= #[trigger] sub_fold(a.take(k)) <= i64::MAX
}

/// Every running total of an integer fold fits in 64 bits.
pub open spec fn folds_fit(a: Seq<Value>, init: int, mul: bool) -> bool {
    forall|k: int| 0 <= k <= a.len() ==> i64::MIN <= #[trigger] prefix_fold(a, k, init, mul) <= i64::MAX
}

/// The running total after the first `k` arguments.
pub open spec fn prefix_fold(a: Seq<Value>, k: int, init: int, mul: bool) -> int {
    int_fold(a.take(k), init, mul)
}

/// Fold the arguments, staying in integers until a float appears. An integer
/// that leaves the range throws; a float that does becomes `##Inf`.
#[verifier::loop_isolation(false)]
fn fold<P: Platform>(vm: &Vm<P>, a: &Vec<Value>, init: i64, fop: FloatOp, name: &str) -> (r: Result<
    Value,
    Fault,
>)
    requires
        fop == FloatOp::Add ==> init == 0,
        fop == FloatOp::Mul ==> init == 1,
        fop == FloatOp::Add || fop == FloatOp::Mul,
    ensures
        (forall|i: int| 0 <= i < a@.len() ==> (#[trigger] a@[i]) is Int) ==> {
            &&& r matches Ok(v) ==> v == Value::Int(int_fold(a@, init as int, fop == FloatOp::Mul) as i64)
            &&& r is Err <==> !folds_fit(a@, init as int, fop == FloatOp::Mul)
        },
{
    let mut acc = Num::Int(init);
    let mut i: usize = 0;
    let ghost all_int = forall|i: int| 0 <= i < a@.len() ==> (#[trigger] a@[i]) is Int;
    let ghost mul = fop == FloatOp::Mul;
    while i < a.len()
        invariant
            i <= a@.len(),
            all_int ==> acc == Num::Int(prefix_fold(a@, i as int, init as int, mul) as i64),
            all_int ==> forall|k: int| 0 <= k <= i ==> i64::MIN <= #[trigger] prefix_fold(a@, k, init as int, mul) <= i64::MAX,
        decreases a@.len() - i,
    {
        let n = match num(&a[i], name) {
            Ok(n) => n,
            Err(e) => {
                return Err(e);
            },
        };
        proof {
            assert(a@.take(i + 1).drop_last() =~= a@.take(i as int));
            assert(a@.take(i + 1).last() == a@[i as int]);
        }
        acc = match (acc, n) {
            (Num::Int(x), Num::Int(y)) => {
                proof {
                    if all_int {
                        assert(a@[i as int] is Int);
                        assert(y == a@[i as int]->Int_0);
                        assert(x as int == prefix_fold(a@, i as int, init as int, mul));
                        assert(prefix_fold(a@, i + 1, init as int, mul) == if mul {
                            x * y
                        } else {
                            x + y
                        });
                    }
                }
                let r = if fop == FloatOp::Mul {
                    x.checked_mul(y)
                } else {
                    x.checked_add(y)
                };
                match r {
                    Some(z) => Num::Int(z),
                    None => {
                        proof {
                            if all_int {
                                assert(!(i64::MIN <= prefix_fold(a@, i + 1, init as int, mul) <= i64::MAX));
                            }
                        }
                        return Err(overflow(name));
                    },
                }
            },
            _ => Num::Float(vm.platform.float_op(fop, as_float(&vm.platform, acc), as_float(&vm.platform, n))),
        };
        i = i + 1;
    }
    proof {
        assert(a@.take(a@.len() as int) =~= a@);
    }
    Ok(number(acc))
}

/// The sign bit flipped: IEEE negation.
fn negate_float(b: u64) -> (r: u64)
    ensures
        r == b ^ 0x8000_0000_0000_0000u64,
{
    b ^ 0x8000_0000_0000_0000u64
}

fn subtract<P: Platform>(vm: &Vm<P>, a: &Vec<Value>) -> (r: Result<Value, Fault>)
    requires
        a@.len() >= 1,
    ensures
        a@.len() == 1 ==> match a@[0] {
            Value::Int(i) => if i == i64::MIN {
                r is Err
            } else {
                r == Ok::<Value, Fault>(Value::Int(-i as i64))
            },
            Value::Float(b) => r == Ok::<Value, Fault>(Value::Float(b ^ 0x8000_0000_0000_0000u64)),
            _ => r is Err,
        },
        a@.len() == 2 && a@[0] is Int && a@[1] is Int ==> {
            let d = a@[0]->Int_0 - a@[1]->Int_0;
            if i64::MIN <= d <= i64::MAX {
                r == Ok::<Value, Fault>(Value::Int(d as i64))
            } else {
                r is Err
            }
        },
        a@.len() >= 2 && (forall|i: int| 0 <= i < a@.len() ==> (#[trigger] a@[i]) is Int) ==> if subs_fit(a@) {
            r == Ok::<Value, Fault>(Value::Int(sub_fold(a@) as i64))
        } else {
            r is Err
        },
{
    let first = match num(&a[0], "-") {
        Ok(n) => n,
        Err(e) => {
            return Err(e);
        },
    };
    if a.len() == 1 {
        return match first {
            Num::Int(i) => {
                if i == i64::MIN {
                    Err(overflow("-"))
                } else {
                    Ok(Value::Int(-i))
                }
            },
            Num::Float(b) => Ok(Value::Float(negate_float(b))),
        };
    }
    let mut acc = first;
    let mut i: usize = 1;
    let ghost all_int = forall|i: int| 0 <= i < a@.len() ==> (#[trigger] a@[i]) is Int;
    proof {
        if all_int {
            assert(a@.take(1).len() == 1);
            assert(sub_fold(a@.take(1)) == a@[0]->Int_0);
        }
    }
    while i < a.len()
        invariant
            1 <= i <= a@.len(),
            all_int == (forall|i: int| 0 <= i < a@.len() ==> (#[trigger] a@[i]) is Int),
            all_int ==> acc == Num::Int(sub_fold(a@.take(i as int)) as i64),
            all_int ==> forall|k: int| 1 <= k <= i ==> i64::MIN <= #[trigger] sub_fold(a@.take(k)) <= i64::MAX,
            i == 1 ==> acc == first,
            a@[0] is Int ==> first == Num::Int(a@[0]->Int_0),
            a@.len() == 2 && a@[0] is Int && a@[1] is Int && i == 2 ==> i64::MIN <= a@[0]->Int_0
                - a@[1]->Int_0 <= i64::MAX,
            a@.len() == 2 && a@[0] is Int && a@[1] is Int && i == 2 ==> acc == Num::Int(
                (a@[0]->Int_0 - a@[1]->Int_0) as i64,
            ),
        decreases a@.len() - i,
    {
        let n = match num(&a[i], "-") {
            Ok(n) => n,
            Err(e) => {
                return Err(e);
            },
        };
        proof {
            if all_int {
                assert(a@.take(i + 1).drop_last() =~= a@.take(i as int));
                assert(a@.take(i + 1).last() == a@[i as int]);
                assert(a@[i as int] is Int);
                assert(sub_fold(a@.take(i + 1)) == sub_fold(a@.take(i as int)) - a@[i as int]->Int_0);
            }
        }
        acc = match (acc, n) {
            (Num::Int(x), Num::Int(y)) => match x.checked_sub(y) {
                Some(z) => Num::Int(z),
                None => {
                    proof {
                        if all_int {
                            assert(!(i64::MIN <= sub_fold(a@.take(i + 1)) <= i64::MAX));
                            assert(!subs_fit(a@));
                        }
                    }
                    return Err(overflow("-"));
                },
            },
            _ => Num::Float(
                vm.platform.float_op(FloatOp::Sub, as_float(&vm.platform, acc), as_float(&vm.platform, n)),
            ),
        };
        i = i + 1;
    }
    proof {
        if all_int {
            assert(a@.take(a@.len() as int) =~= a@);
        }
    }
    Ok(number(acc))
}

/// Always a float: there are no ratios, and truncating under the `/`
/// spelling would be a silent wrong answer.
fn divide<P: Platform>(vm: &Vm<P>, a: &Vec<Value>) -> (r: Result<Value, Fault>)
    requires
        a@.len() >= 1,
    ensures
        r matches Ok(v) ==> v is Float,
        (exists|i: int| 0 <= i < a@.len() && !(a@[i] is Int || a@[i] is Float)) ==> r is Err,
        (forall|i: int| 0 <= i < a@.len() ==> (#[trigger] a@[i] is Int || a@[i] is Float)) ==> r is Ok,
{
    let first = match num(&a[0], "/") {
        Ok(n) => as_float(&vm.platform, n),
        Err(e) => {
            return Err(e);
        },
    };
    if a.len() == 1 {
        return Ok(Value::Float(vm.platform.float_op(FloatOp::Div, 0x3ff0_0000_0000_0000u64, first)));
    }
    let mut acc = first;
    let mut i: usize = 1;
    while i < a.len()
        invariant
            1 <= i <= a@.len(),
            forall|j: int| 0 <= j < i ==> (a@[j] is Int || a@[j] is Float),
        decreases a@.len() - i,
    {
        let n = match num(&a[i], "/") {
            Ok(n) => as_float(&vm.platform, n),
            Err(e) => {
                return Err(e);
            },
        };
        acc = vm.platform.float_op(FloatOp::Div, acc, n);
        i = i + 1;
    }
    Ok(Value::Float(acc))
}

/// Rust's truncating quotient.
pub open spec fn trunc_div(x: int, y: int) -> int {
    if x == 0 {
        0
    } else if x > 0 && y > 0 {
        x / y
    } else if x < 0 && y < 0 {
        (-x) / (-y)
    } else if x < 0 {
        -((-x) / y)
    } else {
        -(x / (-y))
    }
}

/// `quot` and `rem`: integer division, and the one place dividing by zero is
/// an error rather than an infinity.
fn int_div(a: &Value, b: &Value, quot: bool) -> (r: Result<Value, Fault>)
    ensures
        a is Int && b is Int ==> {
            let (x, y) = (a->Int_0 as int, b->Int_0 as int);
            if y == 0 {
                r matches Err(Fault::Vm { kind, .. }) && kind == Kind::DivideByZero
            } else if i64::MIN <= trunc_div(x, y) <= i64::MAX {
                if quot {
                    r == Ok::<Value, Fault>(Value::Int(trunc_div(x, y) as i64))
                } else {
                    r == Ok::<Value, Fault>(Value::Int((x - trunc_div(x, y) * y) as i64))
                }
            } else {
                r matches Err(Fault::Vm { kind, .. }) && kind == Kind::Overflow
            }
        },
        !(a is Int || a is Float) || !(b is Int || b is Float) ==> r is Err,
{
    let op = if quot {
        "quot"
    } else {
        "rem"
    };
    let x = num(a, op);
    let y = num(b, op);
    let (x, y) = match (x, y) {
        (Ok(Num::Int(x)), Ok(Num::Int(y))) => (x, y),
        (Err(e), _) => {
            return Err(e);
        },
        (_, Err(e)) => {
            return Err(e);
        },
        _ => {
            return Err(fault(Kind::Type, cat3("`", op, "` needs integers; `/` is the float division")));
        },
    };
    if y == 0 {
        return Err(fault(Kind::DivideByZero, cat3("`", op, "` by zero")));
    }
    match x.checked_div(y) {
        None => Err(overflow(op)),
        Some(q) => {
            if quot {
                Ok(Value::Int(q))
            } else {
                // `x - q*y` cannot overflow: its magnitude is below `y`'s.
                proof {
                    assert(q as int == trunc_div(x as int, y as int));
                    lemma_trunc_rem_bound(x as int, y as int);
                }
                let m = (q as i128) * (y as i128);
                Ok(Value::Int((x as i128 - m) as i64))
            }
        },
    }
}

proof fn lemma_trunc_rem_bound(x: int, y: int)
    requires
        y != 0,
        i64::MIN <= x <= i64::MAX,
        i64::MIN <= y <= i64::MAX,
        i64::MIN <= trunc_div(x, y) <= i64::MAX,
    ensures
        -(0x1_0000_0000_0000_0000int) < trunc_div(x, y) * y < 0x1_0000_0000_0000_0000int,
        i64::MIN <= x - trunc_div(x, y) * y <= i64::MAX,
{
    let ax = if x < 0 { -x } else { x };
    let ay = if y < 0 { -y } else { y };
    let aq = ax / ay;
    assert(0 <= ax - aq * ay < ay && 0 <= aq * ay <= ax) by (nonlinear_arith)
        requires
            ax >= 0,
            ay > 0,
            aq == ax / ay,
    ;
    let q = trunc_div(x, y);
    if x == 0 {
        assert(aq == 0);
        assert(q == 0);
    } else if x > 0 && y > 0 {
        assert(q == aq);
        assert(q * y == aq * ay);
    } else if x < 0 && y < 0 {
        assert(q == aq);
        assert(q * y == -(aq * ay)) by (nonlinear_arith)
            requires
                q == aq,
                y == -ay,
        ;
    } else if x < 0 {
        assert(q == -aq);
        assert(q * y == -(aq * ay)) by (nonlinear_arith)
            requires
                q == -aq,
                y == ay,
        ;
    } else {
        assert(q == -aq);
        assert(q * y == aq * ay) by (nonlinear_arith)
            requires
                q == -aq,
                y == -ay,
        ;
    }
}

/// The order of two numbers.
#[derive(Clone, Copy, PartialEq, Eq, Debug, Structural)]
pub enum Cmp {
    Less,
    Equal,
    Greater,
}

/// The IEEE order of two non-NaN floats, read off their bits: zeros of
/// either sign are equal, a negative float is below a positive one, and
/// magnitudes order as their bits do.
pub open spec fn float_order(a: u64, b: u64) -> Cmp {
    let za = (a & 0x7fff_ffff_ffff_ffffu64) == 0;
    let zb = (b & 0x7fff_ffff_ffff_ffffu64) == 0;
    let na = (a >> 63u64) == 1;
    let nb = (b >> 63u64) == 1;
    let ma = a & 0x7fff_ffff_ffff_ffffu64;
    let mb = b & 0x7fff_ffff_ffff_ffffu64;
    if za && zb {
        Cmp::Equal
    } else if na && !nb {
        Cmp::Less
    } else if !na && nb {
        Cmp::Greater
    } else if ma == mb {
        Cmp::Equal
    } else if (ma < mb) != na {
        Cmp::Less
    } else {
        Cmp::Greater
    }
}

pub fn float_cmp(a: u64, b: u64) -> (r: Option<Cmp>)
    ensures
        r == (if float_is_nan(a) || float_is_nan(b) {
            None
        } else {
            Some(float_order(a, b))
        }),
{
    if is_nan(a) || is_nan(b) {
        return None;
    }
    let za = (a & 0x7fff_ffff_ffff_ffffu64) == 0;
    let zb = (b & 0x7fff_ffff_ffff_ffffu64) == 0;
    let na = (a >> 63u64) == 1;
    let nb = (b >> 63u64) == 1;
    let ma = a & 0x7fff_ffff_ffff_ffffu64;
    let mb = b & 0x7fff_ffff_ffff_ffffu64;
    Some(
        if za && zb {
            Cmp::Equal
        } else if na && !nb {
            Cmp::Less
        } else if !na && nb {
            Cmp::Greater
        } else if ma == mb {
            Cmp::Equal
        } else if (ma < mb) != na {
            Cmp::Less
        } else {
            Cmp::Greater
        },
    )
}

/// An integer every double represents exactly: below `2^53` in magnitude.
pub open spec fn exact_int(i: i64) -> bool {
    -0x1f_ffff_ffff_ffff <= i <= 0x1f_ffff_ffff_ffff
}

/// `2^e`.
pub open spec fn two_to(e: nat) -> nat
    decreases e,
{
    if e == 0 {
        1
    } else {
        2 * two_to((e - 1) as nat)
    }
}

proof fn lemma_two_to_grows(a: nat, b: nat)
    requires
        a <= b,
    ensures
        two_to(a) <= two_to(b),
        two_to(a) >= 1,
    decreases b,
{
    if b > a {
        lemma_two_to_grows(a, (b - 1) as nat);
    } else if a > 0 {
        lemma_two_to_grows((a - 1) as nat, (a - 1) as nat);
    }
}

/// The exponent of the highest power of two at most `m`, counted from `p`
/// (itself `2^e`) upwards.
pub open spec fn top_exp(m: nat, p: nat, e: nat) -> nat
    decreases m - p,
{
    if 0 < p && 2 * p <= m {
        top_exp(m, 2 * p, e + 1)
    } else {
        e
    }
}

/// `s` doubled until its exponent `k` reaches 52.
pub open spec fn scaled(s: nat, k: nat) -> nat
    decreases 52 - k,
{
    if k < 52 {
        scaled(2 * s, k + 1)
    } else {
        s
    }
}

/// The IEEE-754 double an integer of magnitude below `2^53` is exactly:
/// the sign, the biased exponent of its highest bit, and the bits below it
/// moved up to the top of the 52-bit fraction.
pub open spec fn exact_float_bits(i: i64) -> u64 {
    if i == 0 {
        0
    } else {
        let m: nat = (if i < 0 { -(i as int) } else { i as int }) as nat;
        let e = top_exp(m, 1, 0);
        let sign: int = if i < 0 { 0x8000_0000_0000_0000 } else { 0 };
        (sign + (1023 + e) * 0x10_0000_0000_0000 + (scaled(m, e) - 0x10_0000_0000_0000)) as u64
    }
}

proof fn lemma_two_to_adds(a: nat, b: nat)
    ensures
        two_to(a + b) == two_to(a) * two_to(b),
    decreases b,
{
    if b > 0 {
        let bm = (b - 1) as nat;
        lemma_two_to_adds(a, bm);
        assert(two_to(a + b) == 2 * two_to(a + bm));
        assert(two_to(b) == 2 * two_to(bm));
        let x = two_to(a);
        let y = two_to(bm);
        assert(2 * (x * y) == x * (2 * y)) by (nonlinear_arith);
    } else {
        assert(two_to(b) == 1);
        assert(a + b == a);
    }
}

proof fn lemma_top_exp(m: nat, p: nat, k: nat)
    requires
        p == two_to(k),
        1 <= p <= m,
    ensures
        k <= top_exp(m, p, k),
        two_to(top_exp(m, p, k)) <= m < 2 * two_to(top_exp(m, p, k)),
    decreases m - p,
{
    if 2 * p <= m {
        assert(two_to(k + 1) == 2 * p);
        lemma_top_exp(m, 2 * p, k + 1);
    }
}

proof fn lemma_scaled(s: nat, k: nat)
    requires
        k <= 52,
    ensures
        scaled(s, k) == s * two_to((52 - k) as nat),
    decreases 52 - k,
{
    if k < 52 {
        let j = (51 - k) as nat;
        lemma_scaled(2 * s, k + 1);
        assert((52 - (k + 1)) as nat == j);
        assert(scaled(s, k) == scaled(2 * s, k + 1));
        let t = two_to(j);
        assert(scaled(2 * s, k + 1) == (2 * s) * t);
        assert(two_to((52 - k) as nat) == 2 * t);
        assert((2 * s) * t == s * (2 * t)) by (nonlinear_arith);
        assert(scaled(s, k) == s * two_to((52 - k) as nat));
    } else {
        assert(scaled(s, k) == s);
        assert(two_to((52 - k) as nat) == 1);
        assert(s * 1 == s);
    }
}

proof fn lemma_two_to_52()
    ensures
        two_to(52) == 0x10_0000_0000_0000,
        two_to(53) == 0x20_0000_0000_0000,
{
    reveal_with_fuel(two_to, 54);
}

/// The exponent and significand of an integer below `2^53`: its highest
/// power of two, and the integer scaled up to 53 significant bits.
proof fn lemma_exact_parts(m: nat)
    requires
        1 <= m < 0x20_0000_0000_0000,
    ensures
        top_exp(m, 1, 0) <= 52,
        two_to(top_exp(m, 1, 0)) <= m < 2 * two_to(top_exp(m, 1, 0)),
        0x10_0000_0000_0000 <= scaled(m, top_exp(m, 1, 0)) < 0x20_0000_0000_0000,
        scaled(m, top_exp(m, 1, 0)) * two_to(top_exp(m, 1, 0)) == m * 0x10_0000_0000_0000,
{
    lemma_two_to_52();
    lemma_top_exp(m, 1, 0);
    let e = top_exp(m, 1, 0);
    if e > 52 {
        lemma_two_to_grows(53, e);
        assert(false);
    }
    lemma_scaled(m, e);
    lemma_two_to_adds(e, (52 - e) as nat);
    let t = two_to((52 - e) as nat);
    lemma_two_to_grows(0, (52 - e) as nat);
    let p = two_to(e);
    let sc = scaled(m, e);
    assert(e + (52 - e) as nat == 52);
    assert(p * t == 0x10_0000_0000_0000);
    assert(p * t <= m * t && m * t < 2 * (p * t)) by (nonlinear_arith)
        requires
            p <= m < 2 * p,
            t >= 1,
    ;
    assert(sc * p == m * 0x10_0000_0000_0000) by (nonlinear_arith)
        requires
            sc == m * t,
            p * t == 0x10_0000_0000_0000,
    ;
}

/// The bit pattern `exact_float_bits(i)` is the double whose value is `i`:
/// its sign bit is set exactly for a negative `i`, its biased exponent is
/// `1023 + e` for the `e` with `2^e <= |i| < 2^(e+1)`, and the significand
/// `1.f` (the fraction `f` over `2^52`) times `2^e` is `|i|`.
pub proof fn lemma_exact_float_is_the_integer(i: i64)
    requires
        exact_int(i),
        i != 0,
    ensures
        ({
            let b = exact_float_bits(i);
            let m: nat = (if i < 0 { -(i as int) } else { i as int }) as nat;
            let e = ((b >> 52u64) & 0x7ffu64) - 1023;
            let f = b & 0x000f_ffff_ffff_ffffu64;
            &&& ((b >> 63u64) == 1) == (i < 0)
            &&& 0 <= e <= 52
            &&& two_to(e as nat) <= m < 2 * two_to(e as nat)
            &&& (0x10_0000_0000_0000 + f) * two_to(e as nat) == m * 0x10_0000_0000_0000
        }),
{
    let m: nat = (if i < 0 { -(i as int) } else { i as int }) as nat;
    lemma_exact_parts(m);
    let e = top_exp(m, 1, 0);
    let sc = scaled(m, e);
    let f: u64 = (sc - 0x10_0000_0000_0000) as u64;
    let x: u64 = (1023 + e) as u64;
    let sign: u64 = if i < 0 { 0x8000_0000_0000_0000u64 } else { 0u64 };
    let b = exact_float_bits(i);
    assert(b == sign + x * 0x10_0000_0000_0000u64 + f);
    assert(((b >> 63u64) == 1) == (sign == 0x8000_0000_0000_0000u64) && ((b >> 52u64) & 0x7ffu64) == x && (b
        & 0x000f_ffff_ffff_ffffu64) == f) by (bit_vector)
        requires
            sign == 0 || sign == 0x8000_0000_0000_0000u64,
            1023 <= x <= 1075,
            f < 0x10_0000_0000_0000u64,
            b == sign + x * 0x10_0000_0000_0000u64 + f,
    ;
}

proof fn lemma_exact_float_not_nan(i: i64)
    requires
        exact_int(i),
    ensures
        !float_is_nan(exact_float_bits(i)),
{
    if i == 0 {
        assert(!((0u64 & 0x7ff0_0000_0000_0000u64) == 0x7ff0_0000_0000_0000u64)) by (bit_vector);
    } else {
        lemma_exact_float_is_the_integer(i);
        let b = exact_float_bits(i);
        assert(((b >> 52u64) & 0x7ffu64) <= 1075 ==> (b & 0x7ff0_0000_0000_0000u64) != 0x7ff0_0000_0000_0000u64)
            by (bit_vector);
    }
}

/// An integer below `2^53` in magnitude compares with a float exactly as
/// the double equal to it does: `(< i y)` answers as `(< (float i) y)`, and
/// so for the other comparisons, with the integer on the left.
pub proof fn lemma_integer_compares_as_its_float<P: Platform>(
    vm: Vm<P>,
    vm2: Vm<P>,
    vm3: Vm<P>,
    vm4: Vm<P>,
    p: Prim,
    i: i64,
    y: u64,
    mixed: Result<Value, Fault>,
    floats: Result<Value, Fault>,
)
    requires
        p == Prim::Lt || p == Prim::Gt || p == Prim::Le || p == Prim::Ge || p == Prim::NumEq,
        exact_int(i),
        !float_is_nan(y),
        prim_post(vm, vm2, p, seq![Value::Int(i), Value::Float(y)], mixed),
        prim_post(vm3, vm4, p, seq![Value::Float(exact_float_bits(i)), Value::Float(y)], floats),
    ensures
        mixed == floats,
        mixed == Ok::<Value, Fault>(Value::Bool(holds(p, float_order(exact_float_bits(i), y)))),
{
    lemma_exact_float_not_nan(i);
}

/// An integer of magnitude below `2^53` as the double it is exactly, with
/// no rounding to decide.
fn exact_float(i: i64) -> (r: u64)
    requires
        -0x1f_ffff_ffff_ffff <= i <= 0x1f_ffff_ffff_ffff,
    ensures
        r == exact_float_bits(i),
        !float_is_nan(r),
{
    if i == 0 {
        assert(!((0u64 & 0x7ff0_0000_0000_0000u64) == 0x7ff0_0000_0000_0000u64)) by (bit_vector);
        return 0;
    }
    let m: u64 = if i < 0 {
        (-i) as u64
    } else {
        i as u64
    };
    let ghost mn = m as nat;
    proof {
        reveal_with_fuel(two_to, 54);
    }
    let mut p: u64 = 1;
    let mut e: u64 = 0;
    while p <= m / 2
        invariant
            mn == m,
            1 <= m <= 0x1f_ffff_ffff_ffff,
            1 <= p <= m,
            p == two_to(e as nat),
            e <= 52,
            two_to(52) == 0x10_0000_0000_0000,
            two_to(53) == 0x20_0000_0000_0000,
            top_exp(mn, p as nat, e as nat) == top_exp(mn, 1, 0),
        decreases m - p,
    {
        proof {
            if e + 1 > 52 {
                lemma_two_to_grows(53, (e + 1) as nat);
            }
        }
        p = p * 2;
        e = e + 1;
    }
    assert(top_exp(mn, p as nat, e as nat) == e);
    let mut s: u64 = m;
    let mut q: u64 = p;
    let mut k: u64 = e;
    while k < 52
        invariant
            k <= 52,
            q == two_to(k as nat),
            q <= s < 2 * q,
            two_to(52) == 0x10_0000_0000_0000,
            scaled(s as nat, k as nat) == scaled(mn, e as nat),
        decreases 52 - k,
    {
        proof {
            lemma_two_to_grows(k as nat, 51);
        }
        s = s * 2;
        q = q * 2;
        k = k + 1;
    }
    assert(scaled(s as nat, k as nat) == s);
    let sign: u64 = if i < 0 {
        0x8000_0000_0000_0000
    } else {
        0
    };
    let f: u64 = s - 0x10_0000_0000_0000;
    let x: u64 = 1023 + e;
    let r = sign + x * 0x10_0000_0000_0000 + f;
    assert(!((r & 0x7ff0_0000_0000_0000u64) == 0x7ff0_0000_0000_0000u64 && (r & 0x000f_ffff_ffff_ffffu64) != 0))
        by (bit_vector)
        requires
            sign == 0 || sign == 0x8000_0000_0000_0000u64,
            x <= 1075,
            f < 0x10_0000_0000_0000u64,
            r == sign + x * 0x10_0000_0000_0000u64 + f,
    ;
    r
}

/// The double nearest to an integer, ties going to the even significand,
/// as bits. Below `2^53` in magnitude that is the integer exactly; above it
/// the magnitude `m`, with highest bit `2^e`, keeps its top 53 bits `q`, and
/// the `s = e - 52` bits dropped below them round `q` to the nearer
/// neighbour (to the even one when they are exactly half way). A carry out
/// of the 53 bits moves the exponent up by one.
pub open spec fn nearest_float_bits(i: i64) -> u64 {
    if exact_int(i) {
        exact_float_bits(i)
    } else {
        let m: nat = (if i < 0 { -(i as int) } else { i as int }) as nat;
        let e = top_exp(m, 1, 0);
        let w = two_to((e - 52) as nat);
        let q = m / w;
        let rest = m % w;
        let up = rest > w / 2 || (rest == w / 2 && q % 2 == 1);
        let q2: nat = if up { q + 1 } else { q };
        let carry = q2 == 0x20_0000_0000_0000;
        let e2: int = if carry { e + 1int } else { e as int };
        let f: int = if carry { 0 } else { q2 - 0x10_0000_0000_0000 };
        let sign: int = if i < 0 { 0x8000_0000_0000_0000 } else { 0 };
        (sign + (1023 + e2) * 0x10_0000_0000_0000 + f) as u64
    }
}

proof fn lemma_two_to_63()
    ensures
        two_to(52) == 0x10_0000_0000_0000,
        two_to(53) == 0x20_0000_0000_0000,
        two_to(63) == 0x8000_0000_0000_0000,
{
    reveal_with_fuel(two_to, 64);
}

/// The double `nearest_float_bits(i)` is within half a unit of its last
/// place of an integer `i` too large to be a double exactly: its sign is the
/// sign of `i`, and its value `v = 1.f * 2^e` differs from `|i|` by at most
/// `|i| / 2^53`.
pub proof fn lemma_nearest_float_is_near(i: i64)
    requires
        !exact_int(i),
    ensures
        ({
            let b = nearest_float_bits(i);
            let m: int = if i < 0 { -(i as int) } else { i as int };
            let e = ((b >> 52u64) & 0x7ffu64) - 1023;
            let f = b & 0x000f_ffff_ffff_ffffu64;
            let v = (0x10_0000_0000_0000 + f) * two_to((e - 52) as nat);
            &&& ((b >> 63u64) == 1) == (i < 0)
            &&& 53 <= e <= 64
            &&& (v - m) * 0x20_0000_0000_0000 <= m
            &&& (m - v) * 0x20_0000_0000_0000 <= m
        }),
{
    let m: nat = (if i < 0 { -(i as int) } else { i as int }) as nat;
    lemma_two_to_63();
    lemma_top_exp(m, 1, 0);
    let e = top_exp(m, 1, 0);
    if e <= 52 {
        lemma_two_to_grows(e, 52);
    }
    if e >= 64 {
        lemma_two_to_grows(63, (e - 1) as nat);
    }
    assert(53 <= e <= 63);
    let k = (e - 52) as nat;
    let w = two_to(k);
    lemma_two_to_adds(k, 52);
    assert(k + 52 == e);
    lemma_two_to_grows(1, k);
    assert(two_to(1) == 2 * two_to(0));
    assert(w % 2 == 0) by {
        assert(w == 2 * two_to((k - 1) as nat));
    }
    let q = m / w;
    let rest = m % w;
    assert(m == q * w + rest && 0 <= rest < w) by (nonlinear_arith)
        requires
            w >= 1,
            q == m / w,
            rest == m % w,
    ;
    assert(0x10_0000_0000_0000 <= q < 0x20_0000_0000_0000) by (nonlinear_arith)
        requires
            two_to(e) == w * 0x10_0000_0000_0000,
            w >= 1,
            two_to(e) <= m,
            m < 2 * two_to(e),
            m == q * w + rest,
            0 <= rest < w,
    ;
    let up = rest > w / 2 || (rest == w / 2 && q % 2 == 1);
    let q2: nat = if up { q + 1 } else { q };
    let carry = q2 == 0x20_0000_0000_0000;
    let e2: int = if carry { e + 1int } else { e as int };
    let f0: int = if carry { 0 } else { q2 - 0x10_0000_0000_0000 };
    let sign: u64 = if i < 0 { 0x8000_0000_0000_0000u64 } else { 0u64 };
    let x: u64 = (1023 + e2) as u64;
    let fu: u64 = f0 as u64;
    let b = nearest_float_bits(i);
    assert(b == sign + x * 0x10_0000_0000_0000u64 + fu);
    assert(((b >> 63u64) == 1) == (sign == 0x8000_0000_0000_0000u64) && ((b >> 52u64) & 0x7ffu64) == x && (b
        & 0x000f_ffff_ffff_ffffu64) == fu) by (bit_vector)
        requires
            sign == 0 || sign == 0x8000_0000_0000_0000u64,
            1076 <= x <= 1087,
            fu < 0x10_0000_0000_0000u64,
            b == sign + x * 0x10_0000_0000_0000u64 + fu,
    ;
    let v = (0x10_0000_0000_0000 + fu) * two_to((x - 1023 - 52) as nat);
    if carry {
        assert((x - 1023 - 52) as nat == k + 1);
        assert(two_to(k + 1) == 2 * w);
        assert(v == q2 * w);
    } else {
        assert((x - 1023 - 52) as nat == k);
        assert(v == q2 * w);
    }
    assert(w * 0x10_0000_0000_0000 <= m);
    if up {
        assert(v - m == w - rest) by (nonlinear_arith)
            requires
                v == (q + 1) * w,
                m == q * w + rest,
        ;
    } else {
        assert(m - v == rest) by (nonlinear_arith)
            requires
                v == q * w,
                m == q * w + rest,
        ;
    }
}

/// An integer as the double nearest to it, computed here so that every
/// comparison of an integer with a float rounds it the same way.
fn nearest_float(i: i64) -> (r: u64)
    ensures
        r == nearest_float_bits(i),
        !float_is_nan(r),
{
    if -0x1f_ffff_ffff_ffff <= i && i <= 0x1f_ffff_ffff_ffff {
        return exact_float(i);
    }
    let m: u64 = if i < 0 {
        (-(i as i128)) as u64
    } else {
        i as u64
    };
    let ghost mn: nat = (if i < 0 { -(i as int) } else { i as int }) as nat;
    assert(mn == m);
    proof {
        lemma_two_to_63();
    }
    let mut p: u64 = 1;
    let mut e: u64 = 0;
    while p <= m / 2
        invariant
            mn == m,
            0x20_0000_0000_0000 <= m <= 0x8000_0000_0000_0000,
            1 <= p <= m,
            p == two_to(e as nat),
            e <= 63,
            two_to(63) == 0x8000_0000_0000_0000,
            top_exp(mn, p as nat, e as nat) == top_exp(mn, 1, 0),
        decreases m - p,
    {
        proof {
            if e == 63 {
                assert(false);
            }
        }
        p = p * 2;
        e = e + 1;
    }
    assert(top_exp(mn, p as nat, e as nat) == e);
    proof {
        if e <= 52 {
            lemma_two_to_grows(e as nat, 52);
            assert(false);
        }
        lemma_two_to_adds((e - 52) as nat, 52);
        assert((e - 52) as nat + 52 == e as nat);
    }
    let w: u64 = p / 0x10_0000_0000_0000;
    let ghost wn = two_to((e - 52) as nat);
    assert(w == wn) by (nonlinear_arith)
        requires
            p == wn * 0x10_0000_0000_0000,
            w == p / 0x10_0000_0000_0000,
    ;
    let q: u64 = m / w;
    let rest: u64 = m % w;
    proof {
        lemma_two_to_grows(0, (e - 52) as nat);
    }
    assert(0x10_0000_0000_0000 <= q < 0x20_0000_0000_0000) by (nonlinear_arith)
        requires
            p == w * 0x10_0000_0000_0000,
            w >= 1,
            p <= m,
            m < 2 * p,
            q == m / w,
    ;
    let up = rest > w / 2 || (rest == w / 2 && q % 2 == 1);
    let q2: u64 = if up {
        q + 1
    } else {
        q
    };
    let carry = q2 == 0x20_0000_0000_0000;
    let x: u64 = if carry {
        1023 + e + 1
    } else {
        1023 + e
    };
    let f: u64 = if carry {
        0
    } else {
        q2 - 0x10_0000_0000_0000
    };
    let sign: u64 = if i < 0 {
        0x8000_0000_0000_0000
    } else {
        0
    };
    let r = sign + x * 0x10_0000_0000_0000 + f;
    assert(!((r & 0x7ff0_0000_0000_0000u64) == 0x7ff0_0000_0000_0000u64 && (r & 0x000f_ffff_ffff_ffffu64) != 0))
        by (bit_vector)
        requires
            sign == 0 || sign == 0x8000_0000_0000_0000u64,
            x <= 1087,
            f < 0x10_0000_0000_0000u64,
            r == sign + x * 0x10_0000_0000_0000u64 + f,
    ;
    r
}

/// Compare two numbers across the tower. Two integers compare exactly; a
/// float on either side compares as floats, an integer as the double
/// nearest to it, and `##NaN` is refused because it is unordered against
/// everything.
fn compare(a: &Value, b: &Value, op: &str) -> (r: Result<Cmp, Fault>)
    ensures
        match (*a, *b) {
            (Value::Int(x), Value::Int(y)) => r == Ok::<Cmp, Fault>(
                if x < y {
                    Cmp::Less
                } else if x == y {
                    Cmp::Equal
                } else {
                    Cmp::Greater
                },
            ),
            (Value::Float(x), Value::Float(y)) => if float_is_nan(x) || float_is_nan(y) {
                r is Err
            } else {
                r == Ok::<Cmp, Fault>(float_order(x, y))
            },
            (Value::Int(i), Value::Float(y)) => (float_is_nan(y) ==> r is Err) && (r matches Ok(c) ==> exists|x: u64|
                !float_is_nan(x) && c == #[trigger] float_order(x, y)) && (exact_int(i) && !float_is_nan(y) ==> r
                == Ok::<Cmp, Fault>(float_order(exact_float_bits(i), y))),
            (Value::Float(x), Value::Int(i)) => (float_is_nan(x) ==> r is Err) && (r matches Ok(c) ==> exists|y: u64|
                !float_is_nan(y) && c == #[trigger] float_order(x, y)) && (exact_int(i) && !float_is_nan(x) ==> r
                == Ok::<Cmp, Fault>(float_order(x, exact_float_bits(i)))),
            _ => true,
        },
        match (*a, *b) {
            (Value::Int(i), Value::Float(y)) => !float_is_nan(y) ==> r == Ok::<Cmp, Fault>(
                float_order(nearest_float_bits(i), y),
            ),
            (Value::Float(x), Value::Int(i)) => !float_is_nan(x) ==> r == Ok::<Cmp, Fault>(
                float_order(x, nearest_float_bits(i)),
            ),
            _ => true,
        },
        !(a is Int || a is Float) || !(b is Int || b is Float) ==> r is Err,
{
    let x = match num(a, op) {
        Ok(n) => n,
        Err(e) => {
            return Err(e);
        },
    };
    let y = match num(b, op) {
        Ok(n) => n,
        Err(e) => {
            return Err(e);
        },
    };
    match (x, y) {
        (Num::Int(i), Num::Int(j)) => Ok(
            if i < j {
                Cmp::Less
            } else if i == j {
                Cmp::Equal
            } else {
                Cmp::Greater
            },
        ),
        _ => {
            // An integer compares as the double nearest to it.
            let xf = match x {
                Num::Int(i) => nearest_float(i),
                Num::Float(b) => b,
            };
            let yf = match y {
                Num::Int(i) => nearest_float(i),
                Num::Float(b) => b,
            };
            match float_cmp(xf, yf) {
                Some(c) => {
                    proof {
                        assert(c == float_order(xf, yf));
                    }
                    Ok(c)
                },
                None => Err(fault(Kind::Type, cat3("`", op, "` on ##NaN, which is unordered"))),
            }
        },
    }
}

// --- collections -------------------------------------------------------------------

fn count(v: &Value) -> (r: Result<Value, Fault>)
    ensures
        match *v {
            Value::Nil => r == Ok::<Value, Fault>(Value::Int(0)),
            Value::List(l) => r == Ok::<Value, Fault>(Value::Int(l@.len() as i64)),
            Value::Vec(l) => r == Ok::<Value, Fault>(Value::Int(l@.len() as i64)),
            Value::Dict(m) => r == Ok::<Value, Fault>(Value::Int(m@.len() as i64)),
            _ => r is Err,
        },
{
    match v {
        Value::Nil => Ok(Value::Int(0)),
        Value::List(l) => Ok(Value::Int(#[verifier::truncate] (l.len() as i64))),
        Value::Vec(x) => Ok(Value::Int(#[verifier::truncate] (x.len() as i64))),
        Value::Dict(m) => Ok(Value::Int(#[verifier::truncate] (m.len() as i64))),
        // A string is not a sequence, and `count` on one is the question "in
        // what unit" under a shorter name.
        Value::Str(_) => Err(
            fault(
                Kind::Type,
                copy_str(
                    "`count` on a string: say the unit — `str-len` for bytes, `str-scalars` for scalar values",
                ),
            ),
        ),
        other => Err(need("count", "a collection", other)),
    }
}

fn first(v: &Value) -> (r: Result<Value, Fault>)
    ensures
        match *v {
            Value::Nil => r == Ok::<Value, Fault>(Value::Nil),
            Value::List(l) => r == Ok::<Value, Fault>(if l@.len() > 0 { l@[0] } else { Value::Nil }),
            Value::Vec(l) => r == Ok::<Value, Fault>(if l@.len() > 0 { l@[0] } else { Value::Nil }),
            _ => r is Err,
        },
{
    match v {
        Value::Nil => Ok(Value::Nil),
        Value::List(l) | Value::Vec(l) => {
            if l.len() > 0 {
                Ok(l[0].clone())
            } else {
                Ok(Value::Nil)
            }
        },
        other => Err(need("first", "a sequence", other)),
    }
}

/// Always a list, whatever it was given: `rest` is the sequence operation.
fn rest(v: &Value) -> (r: Result<Value, Fault>)
    ensures
        match *v {
            Value::Nil => r matches Ok(Value::List(xs)) && xs@.len() == 0,
            Value::List(l) => r matches Ok(Value::List(xs)) && xs@ == (if l@.len() > 0 {
                l@.drop_first()
            } else {
                l@
            }),
            Value::Vec(l) => r matches Ok(Value::List(xs)) && xs@ == (if l@.len() > 0 {
                l@.drop_first()
            } else {
                l@
            }),
            _ => r is Err,
        },
{
    let items = match v {
        Value::Nil => Vec::new(),
        Value::List(l) | Value::Vec(l) => {
            let mut out: Vec<Value> = Vec::new();
            let mut i: usize = 1;
            while i < l.len()
                invariant
                    1 <= i,
                    l@.len() > 0 ==> i <= l@.len(),
                    l@.len() > 0 ==> out@ == l@.subrange(1, i as int),
                    l@.len() == 0 ==> out@.len() == 0,
                decreases l@.len() - i,
            {
                out.push(l[i].clone());
                proof {
                    assert(l@.subrange(1, i + 1) =~= l@.subrange(1, i as int).push(l@[i as int]));
                }
                i = i + 1;
            }
            proof {
                if l@.len() > 0 {
                    assert(l@.subrange(1, l@.len() as int) =~= l@.drop_first());
                } else {
                    assert(out@ =~= l@);
                }
            }
            out
        },
        other => {
            return Err(need("rest", "a sequence", other));
        },
    };
    Ok(Value::List(Rc::new(items)))
}

/// Strict where `get` is forgiving: an index off the end is a mistake with a
/// position.
fn nth(s: &Value, i: &Value) -> (r: Result<Value, Fault>)
    ensures
        match (*s, *i) {
            (Value::List(l), Value::Int(k)) => if 0 <= k < l@.len() {
                r == Ok::<Value, Fault>(l@[k as int])
            } else {
                r is Err
            },
            (Value::Vec(l), Value::Int(k)) => if 0 <= k < l@.len() {
                r == Ok::<Value, Fault>(l@[k as int])
            } else {
                r is Err
            },
            _ => true,
        },
        match nth_spec(*s, *i) {
            Some(v) => r == Ok::<Value, Fault>(v),
            None => r is Err,
        },
{
    let items = match seq_items(s, "nth") {
        Ok(xs) => xs,
        Err(e) => {
            return Err(e);
        },
    };
    let k = match index(i, "nth") {
        Ok(k) => k,
        Err(e) => {
            return Err(e);
        },
    };
    if (k as u128) < (items.len() as u128) {
        Ok(items[k as usize].clone())
    } else {
        let mut msg = copy_str("`nth` index ");
        let t = nat_to_text(k);
        push_str(&mut msg, t.as_str());
        push_str(&mut msg, " of ");
        let n = nat_to_text(items.len() as u64);
        push_str(&mut msg, n.as_str());
        Err(fault(Kind::Type, msg))
    }
}

fn nth_or(items: &Vec<Value>, key: &Value, missing: Value) -> (r: Value)
    ensures
        r == (match *key {
            Value::Int(k) => if 0 <= k < items@.len() {
                items@[k as int]
            } else {
                missing
            },
            _ => missing,
        }),
{
    match key {
        Value::Int(k) => {
            if *k >= 0 && (*k as u128) < (items.len() as u128) {
                items[*k as usize].clone()
            } else {
                missing
            }
        },
        _ => missing,
    }
}

fn get(a: &Vec<Value>) -> (r: Result<Value, Fault>)
    requires
        a@.len() >= 2,
    ensures
        a@[0] is Nil ==> r == Ok::<Value, Fault>(if a@.len() > 2 { a@[2] } else { Value::Nil }),
        a@[0] matches Value::Dict(m) ==> r == Ok::<Value, Fault>(
            match crate::value::find_key(a@[1], m@) {
                Some(j) => m@[j].1,
                None => if a@.len() > 2 { a@[2] } else { Value::Nil },
            },
        ),
        match a@[0] {
            Value::List(l) | Value::Vec(l) => r == Ok::<Value, Fault>(
                match a@[1] {
                    Value::Int(k) => if 0 <= k < l@.len() {
                        l@[k as int]
                    } else if a@.len() > 2 {
                        a@[2]
                    } else {
                        Value::Nil
                    },
                    _ => if a@.len() > 2 { a@[2] } else { Value::Nil },
                },
            ),
            Value::Nil | Value::Dict(_) => true,
            _ => r is Err,
        },
{
    let missing = if a.len() > 2 {
        a[2].clone()
    } else {
        Value::Nil
    };
    match &a[0] {
        Value::Nil => Ok(missing),
        Value::Dict(m) => match find_key_index(&a[1], m) {
            Some(j) => {
                proof {
                    crate::value::lemma_find_key_range(a@[1], m@);
                }
                Ok(m[j].1.clone())
            },
            None => Ok(missing),
        },
        Value::List(l) | Value::Vec(l) => Ok(nth_or(l, &a[1], missing)),
        other => Err(need("get", "a collection", other)),
    }
}

/// A key, not a value: on a sequence it asks whether the index is in range.
fn contains(c: &Value, k: &Value) -> (r: Result<Value, Fault>)
    ensures
        *c is Nil ==> r == Ok::<Value, Fault>(Value::Bool(false)),
        c matches Value::Dict(m) ==> r == Ok::<Value, Fault>(
            Value::Bool(crate::value::find_key(*k, m@) is Some),
        ),
        match contains_spec(*c, *k) {
            Some(b) => r == Ok::<Value, Fault>(Value::Bool(b)),
            None => r is Err,
        },
{
    match c {
        Value::Nil => Ok(Value::Bool(false)),
        Value::Dict(m) => Ok(Value::Bool(find_key_index(k, m).is_some())),
        Value::List(l) | Value::Vec(l) => Ok(
            Value::Bool(
                match k {
                    Value::Int(i) => *i >= 0 && (*i as u128) < (l.len() as u128),
                    _ => false,
                },
            ),
        ),
        other => Err(need("contains?", "a collection", other)),
    }
}

fn empty(v: &Value) -> (r: Result<Value, Fault>)
    ensures
        match *v {
            Value::Nil => r == Ok::<Value, Fault>(Value::Bool(true)),
            Value::List(l) => r == Ok::<Value, Fault>(Value::Bool(l@.len() == 0)),
            Value::Vec(l) => r == Ok::<Value, Fault>(Value::Bool(l@.len() == 0)),
            Value::Dict(m) => r == Ok::<Value, Fault>(Value::Bool(m@.len() == 0)),
            _ => r is Err,
        },
{
    match v {
        Value::Nil => Ok(Value::Bool(true)),
        Value::List(l) | Value::Vec(l) => Ok(Value::Bool(l.len() == 0)),
        Value::Dict(m) => Ok(Value::Bool(m.len() == 0)),
        other => Err(need("empty?", "a collection", other)),
    }
}

/// A list grows at the front and a vector at the back: `conj` adds where
/// the representation is cheap.
#[verifier::loop_isolation(false)]
/// The key and value a `conj` onto a map adds: a list or vector of two.
pub open spec fn entry_of(v: Value) -> Option<(Value, Value)> {
    match v {
        Value::List(l) => if l@.len() == 2 {
            Some((l@[0], l@[1]))
        } else {
            None
        },
        Value::Vec(l) => if l@.len() == 2 {
            Some((l@[0], l@[1]))
        } else {
            None
        },
        _ => None,
    }
}

/// The pairs after adding each entry of `items` in turn; `None` once one is
/// not a key/value pair.
pub open spec fn conj_pairs(ps: Seq<(Value, Value)>, items: Seq<Value>) -> Option<Seq<(Value, Value)>>
    decreases items.len(),
{
    if items.len() == 0 {
        Some(ps)
    } else {
        match entry_of(items[0]) {
            Some(e) => conj_pairs(put_spec(ps, e.0, e.1), items.drop_first()),
            None => None,
        }
    }
}

/// `conj` adds where the collection grows cheaply: at the front of a list,
/// each in turn (so the last added comes first), at the end of a vector,
/// and into a map by key.
fn conj(a: &Vec<Value>) -> (r: Result<Value, Fault>)
    requires
        a@.len() >= 1,
    ensures
        match a@[0] {
            Value::Nil => r matches Ok(Value::List(xs)) && xs@ == a@.drop_first().reverse(),
            Value::List(l) => r matches Ok(Value::List(xs)) && xs@ == a@.drop_first().reverse() + l@,
            Value::Vec(l) => r matches Ok(Value::Vec(xs)) && xs@ == l@ + a@.drop_first(),
            Value::Dict(m) => match conj_pairs(m@, a@.drop_first()) {
                Some(ps) => r matches Ok(Value::Dict(out)) && out@ == ps,
                None => r is Err,
            },
            _ => r is Err,
        },
{
    match &a[0] {
        Value::Nil | Value::List(_) => {
            let mut out: Vec<Value> = Vec::new();
            let mut k = a.len();
            proof {
                assert(a@.subrange(k as int, a@.len() as int).reverse() =~= out@);
            }
            while k > 1
                invariant
                    1 <= k <= a@.len(),
                    out@ == a@.subrange(k as int, a@.len() as int).reverse(),
                decreases k,
            {
                out.push(a[k - 1].clone());
                k = k - 1;
                proof {
                    assert(out@ =~= a@.subrange(k as int, a@.len() as int).reverse());
                }
            }
            proof {
                assert(a@.subrange(1, a@.len() as int) =~= a@.drop_first());
            }
            let ghost front = out@;
            match &a[0] {
                Value::List(l) => {
                    let mut i: usize = 0;
                    while i < l.len()
                        invariant
                            i <= l@.len(),
                            out@ == front + l@.take(i as int),
                        decreases l@.len() - i,
                    {
                        out.push(l[i].clone());
                        i = i + 1;
                        proof {
                            assert(out@ =~= front + l@.take(i as int));
                        }
                    }
                    proof {
                        assert(l@.take(l@.len() as int) =~= l@);
                    }
                },
                _ => {},
            }
            Ok(Value::List(Rc::new(out)))
        },
        Value::Vec(x) => {
            let mut out = crate::value::copy_values(x);
            let ghost start = out@;
            let mut i: usize = 1;
            while i < a.len()
                invariant
                    1 <= i <= a@.len(),
                    start == x@,
                    out@ == start + a@.subrange(1, i as int),
                decreases a@.len() - i,
            {
                out.push(a[i].clone());
                proof {
                    assert(a@.subrange(1, i + 1) =~= a@.subrange(1, i as int).push(a@[i as int]));
                }
                i = i + 1;
            }
            proof {
                assert(a@.subrange(1, a@.len() as int) =~= a@.drop_first());
            }
            Ok(Value::Vec(Rc::new(out)))
        },
        Value::Dict(m) => {
            let mut out = crate::value::copy_pairs(m);
            let mut i: usize = 1;
            proof {
                assert(a@.subrange(1, a@.len() as int) =~= a@.drop_first());
            }
            while i < a.len()
                invariant
                    1 <= i <= a@.len(),
                    a@[0] == Value::Dict(*m),
                    conj_pairs(out@, a@.subrange(i as int, a@.len() as int)) == conj_pairs(m@, a@.drop_first()),
                decreases a@.len() - i,
            {
                proof {
                    let here = a@.subrange(i as int, a@.len() as int);
                    assert(here.drop_first() =~= a@.subrange(i + 1, a@.len() as int));
                    assert(here[0] == a@[i as int]);
                }
                let pair = match seq_items(&a[i], "conj") {
                    Ok(p) => p,
                    Err(e) => {
                        return Err(e);
                    },
                };
                if pair.len() != 2 {
                    return Err(fault(Kind::Type, copy_str("`conj` on a map needs a key/value pair")));
                }
                put(&mut out, pair[0].clone(), pair[1].clone());
                i = i + 1;
            }
            proof {
                assert(a@.subrange(i as int, a@.len() as int).len() == 0);
            }
            Ok(Value::Dict(Rc::new(out)))
        },
        other => Err(need("conj", "a collection", other)),
    }
}

#[verifier::loop_isolation(false)]
fn assoc(a: &Vec<Value>) -> (r: Result<Value, Fault>)
    requires
        a@.len() >= 3,
    ensures
        a@.len() % 2 == 0 ==> (r matches Err(Fault::Vm { kind, .. }) && kind == Kind::Arity),
        a@.len() % 2 == 1 ==> match a@[0] {
            Value::Nil => r matches Ok(Value::Dict(out)) && out@ == assoc_pairs(Seq::empty(), a@.drop_first()),
            Value::Dict(m) => r matches Ok(Value::Dict(out)) && out@ == assoc_pairs(m@, a@.drop_first()),
            Value::Vec(x) => match assoc_items(x@, a@.drop_first()) {
                Some(ys) => r matches Ok(Value::Vec(out)) && out@ == ys,
                None => r is Err,
            },
            _ => r is Err,
        },
{
    if (a.len() - 1) % 2 != 0 {
        return Err(fault(Kind::Arity, copy_str("`assoc` needs a value for every key")));
    }
    let ghost rest = a@.drop_first();
    match &a[0] {
        Value::Nil | Value::Dict(_) => {
            let mut pairs = match &a[0] {
                Value::Dict(m) => crate::value::copy_pairs(m),
                _ => Vec::new(),
            };
            let ghost start = pairs@;
            let mut i: usize = 1;
            proof {
                assert(a@.subrange(1, a@.len() as int) =~= rest);
            }
            while i < a.len() - 1
                invariant
                    1 <= i <= a@.len(),
                    (a@.len() - i) % 2 == 0,
                    assoc_pairs(pairs@, a@.subrange(i as int, a@.len() as int)) == assoc_pairs(start, rest),
                decreases a@.len() - i,
            {
                proof {
                    let here = a@.subrange(i as int, a@.len() as int);
                    assert(here.subrange(2, here.len() as int) =~= a@.subrange(i + 2, a@.len() as int));
                }
                put(&mut pairs, a[i].clone(), a[i + 1].clone());
                i = i + 2;
            }
            proof {
                assert(a@.subrange(i as int, a@.len() as int).len() == 0);
            }
            Ok(Value::Dict(Rc::new(pairs)))
        },
        Value::Vec(x) => {
            let mut items = crate::value::copy_values(x);
            let mut i: usize = 1;
            proof {
                assert(a@.subrange(1, a@.len() as int) =~= rest);
            }
            while i < a.len() - 1
                invariant
                    1 <= i <= a@.len(),
                    (a@.len() - i) % 2 == 0,
                    assoc_items(items@, a@.subrange(i as int, a@.len() as int)) == assoc_items(x@, rest),
                decreases a@.len() - i,
            {
                proof {
                    let here = a@.subrange(i as int, a@.len() as int);
                    assert(here.subrange(2, here.len() as int) =~= a@.subrange(i + 2, a@.len() as int));
                }
                let k = match index(&a[i], "assoc") {
                    Ok(k) => k,
                    Err(e) => {
                        return Err(e);
                    },
                };
                if (k as u128) >= (items.len() as u128) {
                    let mut msg = copy_str("`assoc` index ");
                    let t = nat_to_text(k);
                    push_str(&mut msg, t.as_str());
                    push_str(&mut msg, " of ");
                    let n = nat_to_text(items.len() as u64);
                    push_str(&mut msg, n.as_str());
                    return Err(fault(Kind::Type, msg));
                }
                items.set(k as usize, a[i + 1].clone());
                i = i + 2;
            }
            proof {
                assert(a@.subrange(i as int, a@.len() as int).len() == 0);
            }
            Ok(Value::Vec(Rc::new(items)))
        },
        other => Err(need("assoc", "a map or vector", other)),
    }
}

/// A map's pairs, in order, less those whose key is `=` to one of `keys`.
pub open spec fn without_keys(ps: Seq<(Value, Value)>, keys: Seq<Value>) -> Seq<(Value, Value)>
    decreases ps.len(),
{
    if ps.len() == 0 {
        ps
    } else {
        let rest = without_keys(ps.drop_last(), keys);
        if exists|d: int| 0 <= d < keys.len() && lang_eq(ps.last().0, #[trigger] keys[d]) {
            rest
        } else {
            rest.push(ps.last())
        }
    }
}

fn dissoc(a: &Vec<Value>) -> (r: Result<Value, Fault>)
    requires
        a@.len() >= 1,
    ensures
        match a@[0] {
            Value::Nil => r == Ok::<Value, Fault>(Value::Nil),
            Value::Dict(m) => r matches Ok(Value::Dict(out)) && out@ == without_keys(m@, a@.drop_first()),
            _ => r is Err,
        },
{
    match &a[0] {
        Value::Nil => Ok(Value::Nil),
        Value::Dict(m) => {
            let ghost keys = a@.drop_first();
            let mut out: Vec<(Value, Value)> = Vec::new();
            let mut i: usize = 0;
            proof {
                assert(m@.take(0) =~= Seq::<(Value, Value)>::empty());
            }
            while i < m.len()
                invariant
                    i <= m@.len(),
                    a@.len() >= 1,
                    a@[0] == Value::Dict(*m),
                    keys == a@.drop_first(),
                    out@ == without_keys(m@.take(i as int), keys),
                decreases m@.len() - i,
            {
                let mut gone = false;
                let mut d: usize = 1;
                while d < a.len()
                    invariant
                        1 <= d <= a@.len(),
                        i < m@.len(),
                        keys == a@.drop_first(),
                        gone <==> exists|e: int| 0 <= e < d - 1 && lang_eq(m@[i as int].0, #[trigger] keys[e]),
                    decreases a@.len() - d,
                {
                    if equal(&m[i].0, &a[d]) {
                        gone = true;
                        assert(keys[d - 1] == a@[d as int]);
                    }
                    proof {
                        if !gone {
                            assert forall|e: int| 0 <= e < d implies !lang_eq(m@[i as int].0, #[trigger] keys[e]) by {
                                if e == d - 1 {
                                    assert(keys[e] == a@[d as int]);
                                }
                            }
                        }
                    }
                    d = d + 1;
                }
                proof {
                    assert(m@.take(i + 1).drop_last() =~= m@.take(i as int));
                    assert(m@.take(i + 1).last() == m@[i as int]);
                }
                if !gone {
                    out.push((m[i].0.clone(), m[i].1.clone()));
                }
                i = i + 1;
            }
            proof {
                assert(m@.take(m@.len() as int) =~= m@);
            }
            Ok(Value::Dict(Rc::new(out)))
        },
        other => Err(need("dissoc", "a map", other)),
    }
}

fn map_part(v: &Value, op: &str, want_key: bool) -> (r: Result<Value, Fault>)
    ensures
        v matches Value::Dict(m) ==> (r matches Ok(Value::List(xs)) && xs@.len() == m@.len()
            && forall|j: int|
            0 <= j < m@.len() ==> #[trigger] xs@[j] == if want_key {
                m@[j].0
            } else {
                m@[j].1
            }),
        *v is Nil ==> (r matches Ok(Value::List(xs)) && xs@.len() == 0),
{
    match v {
        Value::Nil => Ok(Value::List(Rc::new(Vec::new()))),
        Value::Dict(m) => {
            let mut items: Vec<Value> = Vec::new();
            let mut i: usize = 0;
            while i < m.len()
                invariant
                    i <= m@.len(),
                    items@.len() == i,
                    forall|j: int|
                        0 <= j < i ==> #[trigger] items@[j] == if want_key {
                            m@[j].0
                        } else {
                            m@[j].1
                        },
                decreases m@.len() - i,
            {
                if want_key {
                    items.push(m[i].0.clone());
                } else {
                    items.push(m[i].1.clone());
                }
                i = i + 1;
            }
            Ok(Value::List(Rc::new(items)))
        },
        other => Err(need(op, "a map", other)),
    }
}

/// `~@` lowers to this: the sequential collections that exist, as one list.
fn concat(a: &Vec<Value>) -> (r: Result<Value, Fault>)
    ensures
        match concat_spec(a@) {
            Some(xs) => r matches Ok(Value::List(out)) && out@ == xs,
            None => r is Err,
        },
{
    let mut out: Vec<Value> = Vec::new();
    let mut i: usize = 0;
    proof {
        assert(a@.take(0) =~= Seq::<Value>::empty());
    }
    while i < a.len()
        invariant
            i <= a@.len(),
            concat_spec(a@.take(i as int)) == Some(out@),
        decreases a@.len() - i,
    {
        proof {
            assert(a@.take(i + 1).drop_last() =~= a@.take(i as int));
        }
        match &a[i] {
            Value::List(l) | Value::Vec(l) => {
                let ghost before = out@;
                let mut k: usize = 0;
                while k < l.len()
                    invariant
                        k <= l@.len(),
                        out@ == before + l@.take(k as int),
                    decreases l@.len() - k,
                {
                    out.push(l[k].clone());
                    k = k + 1;
                    proof {
                        assert(out@ =~= before + l@.take(k as int));
                    }
                }
                proof {
                    assert(l@.take(l@.len() as int) =~= l@);
                }
            },
            Value::Nil => {},
            other => {
                proof {
                    let ghost z = a@.take(i + 1);
                    assert(z.last() == a@[i as int]);
                    assert(concat_spec(a@.take(i + 1)) is None);
                    lemma_concat_none_grows(a@, i + 1);
                    assert(a@.take(a@.len() as int) =~= a@);
                }
                return Err(need("concat", "lists or vectors", other));
            },
        }
        i = i + 1;
    }
    proof {
        assert(a@.take(a@.len() as int) =~= a@);
    }
    Ok(Value::List(Rc::new(out)))
}

/// Once a prefix has something that is not a sequence, so has every longer
/// one.
proof fn lemma_concat_none_grows(a: Seq<Value>, n: int)
    requires
        0 <= n <= a.len(),
        concat_spec(a.take(n)) is None,
    ensures
        concat_spec(a.take(a.len() as int)) is None,
    decreases a.len() - n,
{
    if n < a.len() {
        assert(a.take(n + 1).drop_last() =~= a.take(n));
        lemma_concat_none_grows(a, n + 1);
    }
}

// --- strings and bytes ----------------------------------------------------------------

/// `char::from_u32`: the character with a scalar value, where there is one.
#[verifier::external_body]
fn char_from_u32(n: u32) -> (r: Option<char>)
    ensures
        r matches Some(c) ==> c as u32 == n,
        r is None <==> !(n <= 0x10FFFF && !(0xD800 <= n <= 0xDFFF)),
{
    char::from_u32(n)
}

/// `std::str::from_utf8`: the text bytes encode, or the length of the longest
/// valid prefix.
#[verifier::external_body]
pub(crate) fn utf8_text(b: &Vec<u8>) -> (r: Result<String, usize>)
    ensures
        r matches Ok(s) ==> vstd::utf8::valid_utf8(b@) && s@ == vstd::utf8::decode_utf8(b@),
        r matches Err(n) ==> !vstd::utf8::valid_utf8(b@) && n <= b@.len() && vstd::utf8::valid_utf8(
            b@.subrange(0, n as int),
        ),
{
    match std::str::from_utf8(b.as_slice()) {
        Ok(s) => Ok(s.to_string()),
        Err(e) => Err(e.valid_up_to()),
    }
}

/// What `nth` gives: the item at an in-range index of a sequence, and
/// otherwise nothing.
pub open spec fn nth_spec(s: Value, i: Value) -> Option<Value> {
    match seq_items_spec(s) {
        Some(xs) => match i {
            Value::Int(k) => if 0 <= k < xs.len() {
                Some(xs[k as int])
            } else {
                None
            },
            _ => None,
        },
        None => None,
    }
}

/// What `contains?` answers of a collection and a key: a map is asked for
/// the key, a list or vector whether the key is an index in range, and
/// `nil` holds nothing. Any other value is no collection.
pub open spec fn contains_spec(c: Value, k: Value) -> Option<bool> {
    match c {
        Value::Nil => Some(false),
        Value::Dict(m) => Some(crate::value::find_key(k, m@) is Some),
        Value::List(l) | Value::Vec(l) => Some(k matches Value::Int(i) && 0 <= i < l@.len()),
        _ => None,
    }
}

/// The items of a sequence value: `nil` is the empty one.
pub open spec fn seq_items_spec(v: Value) -> Option<Seq<Value>> {
    match v {
        Value::Nil => Some(Seq::empty()),
        Value::List(l) => Some(l@),
        Value::Vec(l) => Some(l@),
        _ => None,
    }
}

/// The 32-bit value a non-negative integer names as a scalar.
pub open spec fn scalar_bits(x: Value) -> u32 {
    match x {
        Value::Int(i) => (i as u64) as u32,
        _ => 0,
    }
}

/// An item `scalars-str` accepts: a non-negative integer whose low 32 bits
/// are a Unicode scalar value.
pub open spec fn scalar_item(x: Value) -> bool {
    &&& x matches Value::Int(i) && i >= 0
    &&& scalar_bits(x) <= 0x10FFFF && !(0xD800 <= scalar_bits(x) <= 0xDFFF)
}

/// Scalar values as integers, since there is no character type.
fn scalars_str(v: &Value) -> (r: Result<Value, Fault>)
    ensures
        from_scalars(*v, r),
{
    let items = match seq_items(v, "scalars-str") {
        Ok(xs) => xs,
        Err(e) => {
            return Err(e);
        },
    };
    proof {
        if *v is Nil {
            assert(items@ =~= Seq::<Value>::empty());
        }
    }
    let mut out = String::new();
    let mut i: usize = 0;
    while i < items.len()
        invariant
            seq_items_spec(*v) == Some(items@),
            i <= items@.len(),
            out@.len() == i,
            forall|k: int| 0 <= k < i ==> scalar_item(#[trigger] items@[k]),
            forall|k: int| 0 <= k < i ==> #[trigger] out@[k] as u32 == scalar_bits(items@[k]),
        decreases items@.len() - i,
    {
        let n = match index(&items[i], "scalars-str") {
            Ok(n) => #[verifier::truncate] (n as u32),
            Err(e) => {
                proof {
                    assert(!scalar_item(items@[i as int]));
                    assert(!(forall|k: int| 0 <= k < items@.len() ==> scalar_item(#[trigger] items@[k])));
                    assert(seq_items_spec(*v)->Some_0 == items@);
                }
                return Err(e);
            },
        };
        assert(n == scalar_bits(items@[i as int]));
        match char_from_u32(n) {
            Some(c) => push_char(&mut out, c),
            None => {
                proof {
                    assert(!scalar_item(items@[i as int]));
                    assert(!(forall|k: int| 0 <= k < items@.len() ==> scalar_item(#[trigger] items@[k])));
                    assert(seq_items_spec(*v)->Some_0 == items@);
                }
                let t = nat_to_text(n as u64);
                return Err(fault(Kind::Type, cat(t.as_str(), " is not a Unicode scalar value")));
            },
        }
        i = i + 1;
    }
    Ok(Value::Str(Rc::new(StrObj(out))))
}

/// The character index at byte offset `b` of `cs`, where a character starts
/// there (or `b` is the end).
fn char_at_byte(cs: &Vec<char>, b: u64) -> (r: Option<usize>)
    ensures
        r matches Some(k) ==> k <= cs@.len() && crate::text::byte_offset(cs@, k as int) == b,
        r is None ==> forall|j: int| 0 <= j <= cs@.len() ==> #[trigger] crate::text::byte_offset(cs@, j) != b,
{
    let mut k: usize = 0;
    let mut off: u64 = 0;
    while k < cs.len() && off < b
        invariant
            k <= cs@.len(),
            off as nat == crate::text::byte_offset(cs@, k as int),
            forall|j: int| 0 <= j < k ==> #[trigger] crate::text::byte_offset(cs@, j) < b,
        decreases cs@.len() - k,
    {
        proof {
            crate::text::lemma_byte_offset_step(cs@, k as int);
        }
        let w = crate::text::width_of(cs[k]);
        if off > u64::MAX - (w as u64) {
            proof {
                assert forall|j: int| 0 <= j <= cs@.len() implies #[trigger] crate::text::byte_offset(cs@, j) != b by {
                    if j > k {
                        crate::text::lemma_byte_offset_mono(cs@, k + 1, j);
                    }
                }
            }
            return None;
        }
        off = off + w as u64;
        k = k + 1;
    }
    if off == b {
        Some(k)
    } else {
        proof {
            assert forall|j: int| 0 <= j <= cs@.len() implies #[trigger] crate::text::byte_offset(cs@, j) != b by {
                if j > k {
                    crate::text::lemma_byte_offset_mono(cs@, k as int, j);
                }
            }
        }
        None
    }
}

/// The length of a text in bytes, as `str::len` reports it.
pub open spec fn byte_len(cs: Seq<char>) -> int {
    (crate::text::utf8_len(cs) as usize) as int
}

/// Byte indices, since there is no constant-time character indexing. A cut
/// inside a character is an error, not a broken string.
fn str_slice(s: &Value, from: &Value, to: &Value) -> (r: Result<Value, Fault>)
    ensures
        sliced(*s, *from, *to, r),
{
    let text = match s {
        Value::Str(t) => t,
        other => {
            return Err(need("str-slice", "a string", other));
        },
    };
    let f = match index(from, "str-slice") {
        Ok(f) => f,
        Err(e) => {
            return Err(e);
        },
    };
    let t = match index(to, "str-slice") {
        Ok(t) => t,
        Err(e) => {
            return Err(e);
        },
    };
    let ts = text.0.as_str();
    let len = ts.len() as u64;
    proof {
        crate::text::lemma_utf8_len_encoding(text.0@);
        assert(ts@ == text.0@);
        assert(len as int == byte_len(text.0@));
        if t <= len {
            crate::text::lemma_byte_offset_mono(text.0@, 0, text.0@.len() as int);
        }
        assert(crate::text::byte_offset(text.0@, text.0@.len() as int) == crate::text::utf8_len(text.0@)) by {
            assert(text.0@.take(text.0@.len() as int) =~= text.0@);
        }
    }
    if f > t || t > len {
        let mut msg = copy_str("`str-slice` ");
        push_str(&mut msg, nat_to_text(f).as_str());
        push_str(&mut msg, "..");
        push_str(&mut msg, nat_to_text(t).as_str());
        push_str(&mut msg, " of ");
        push_str(&mut msg, nat_to_text(len).as_str());
        push_str(&mut msg, " bytes");
        return Err(fault(Kind::Type, msg));
    }
    let cs = chars_of(text.0.as_str());
    let ci = char_at_byte(&cs, f);
    let cj = char_at_byte(&cs, t);
    proof {
        assert(cs@ == text.0@);
        if ci is None {
            assert(!exists|i: int| 0 <= i <= text.0@.len() && #[trigger] crate::text::byte_offset(text.0@, i) == f);
        }
        if cj is None {
            assert(!exists|j: int| 0 <= j <= text.0@.len() && #[trigger] crate::text::byte_offset(text.0@, j) == t);
        }
    }
    match (ci, cj) {
        (Some(i), Some(j)) => {
            if i <= j {
                Ok(Value::Str(Rc::new(StrObj(string_of_range(cs.as_slice(), i, j)))))
            } else {
                proof {
                    crate::text::lemma_byte_offset_step(cs@, j as int);
                    crate::text::lemma_byte_offset_mono(cs@, j + 1, i as int);
                }
                Ok(Value::Str(Rc::new(StrObj(String::new()))))
            }
        },
        _ => {
            let mut msg = copy_str("`str-slice` ");
            push_str(&mut msg, nat_to_text(f).as_str());
            push_str(&mut msg, "..");
            push_str(&mut msg, nat_to_text(t).as_str());
            push_str(&mut msg, " splits a character");
            Err(fault(Kind::Type, msg))
        },
    }
}

} // verus!
