//! The printer, the reader's other half: what it prints reads back as the
//! value printed.

use crate::platform::Platform;
use crate::text::{copy_str, nat_digits, nat_to_text, int_text, int_to_text, push_char, push_str};
use crate::error::SpanOrigin;
use crate::value::{
    children, children_spec, flatten_pairs, float_is_infinite, float_is_nan, is_infinite, is_nan,
    kind_name, kind_name_spec, Interner, Origins, Value, NAN_BITS,
};
use vstd::prelude::*;

verus! {

broadcast use vstd::std_specs::vec::axiom_vec_decreases_to_view;

/// Nothing in `v` is a finite float, and every symbol and keyword names an
/// entry of a table of `n` names: the values whose printed text this module
/// pins down. A finite float's digits are the host's.
pub open spec fn printable(v: Value, n: nat) -> bool
    decreases v,
{
    match v {
        Value::Float(b) => float_is_nan(b) || float_is_infinite(b),
        Value::Sym(s) => s.0 < n,
        Value::Keyword(k) => k.0 < n,
        Value::List(l) => forall|i: int| 0 <= i < l@.len() ==> printable(#[trigger] l@[i], n),
        Value::Vec(l) => forall|i: int| 0 <= i < l@.len() ==> printable(#[trigger] l@[i], n),
        Value::Dict(m) => forall|i: int|
            0 <= i < m@.len() ==> printable(#[trigger] m@[i].0, n) && printable(m@[i].1, n),
        _ => true,
    }
}

pub open spec fn pairs_printable(m: Seq<(Value, Value)>, n: nat) -> bool {
    forall|i: int| 0 <= i < m.len() ==> printable(#[trigger] m[i].0, n) && printable(m[i].1, n)
}

/// One character of a string literal's body.
pub open spec fn escape_char(c: char) -> Seq<char> {
    if c == '"' {
        seq!['\\', '"']
    } else if c == '\\' {
        seq!['\\', '\\']
    } else if c == '\n' {
        seq!['\\', 'n']
    } else if c == '\t' {
        seq!['\\', 't']
    } else if c == '\r' {
        seq!['\\', 'r']
    } else {
        seq![c]
    }
}

pub open spec fn escape(cs: Seq<char>) -> Seq<char>
    decreases cs.len(),
{
    if cs.len() == 0 {
        Seq::empty()
    } else {
        escape(cs.drop_last()) + escape_char(cs.last())
    }
}

/// A string literal that reads back as `cs`.
pub open spec fn string_literal(cs: Seq<char>) -> Seq<char> {
    seq!['"'] + escape(cs) + seq!['"']
}

/// The bytes of a `#bytes[...]` literal, separated by spaces.
pub open spec fn byte_list(bs: Seq<u8>) -> Seq<char>
    decreases bs.len(),
{
    if bs.len() == 0 {
        Seq::empty()
    } else if bs.len() == 1 {
        nat_digits(bs[0] as nat)
    } else {
        byte_list(bs.drop_last()) + seq![' '] + nat_digits(bs.last() as nat)
    }
}

pub open spec fn float_text(b: u64) -> Seq<char> {
    if float_is_nan(b) {
        seq!['#', '#', 'N', 'a', 'N']
    } else if b == 0x7ff0_0000_0000_0000u64 {
        seq!['#', '#', 'I', 'n', 'f']
    } else {
        seq!['#', '#', '-', 'I', 'n', 'f']
    }
}

pub open spec fn opaque_pair(tag: Seq<char>, a: u32, b: u32) -> Seq<char> {
    seq!['#', '<'] + tag + seq![' '] + nat_digits(a as nat) + seq![':'] + nat_digits(b as nat)
        + seq!['>']
}

/// The printed text of a value.
pub open spec fn print_spec(v: Value, names: Seq<Seq<char>>) -> Seq<char>
    decreases v, 0nat,
{
    match v {
        Value::Nil => seq!['n', 'i', 'l'],
        Value::Bool(b) => if b {
            seq!['t', 'r', 'u', 'e']
        } else {
            seq!['f', 'a', 'l', 's', 'e']
        },
        Value::Int(i) => int_text(i as int),
        Value::Float(b) => float_text(b),
        Value::Str(s) => string_literal(s.0@),
        Value::Bytes(b) => seq!['#', 'b', 'y', 't', 'e', 's', '['] + byte_list(b.0@) + seq![']'],
        Value::Sym(s) => names[s.0 as int],
        Value::Keyword(k) => seq![':'] + names[k.0 as int],
        Value::List(l) => seq!['('] + join(l@, names) + seq![')'],
        Value::Vec(l) => seq!['['] + join(l@, names) + seq![']'],
        Value::Dict(m) => seq!['{'] + join_pairs(m@, names) + seq!['}'],
        Value::Fn(_) => seq!['#', '<', 'f', 'n', '>'],
        Value::Cell(c) => opaque_pair(seq!['c', 'e', 'l', 'l'], c.0, c.1),
        Value::Handle(h) => opaque_pair(seq!['h', 'a', 'n', 'd', 'l', 'e'], h.0, h.1),
        Value::Buffer(b) => opaque_pair(seq!['b', 'u', 'f', 'f', 'e', 'r'], b.0, b.1),
    }
}

/// Printed items separated by single spaces.
pub open spec fn join(xs: Seq<Value>, names: Seq<Seq<char>>) -> Seq<char>
    decreases xs, 1nat,
{
    if xs.len() == 0 {
        Seq::empty()
    } else if xs.len() == 1 {
        print_spec(xs[0], names)
    } else {
        join(xs.drop_last(), names) + seq![' '] + print_spec(xs.last(), names)
    }
}

/// Printed pairs, key then value, all separated by single spaces.
pub open spec fn join_pairs(xs: Seq<(Value, Value)>, names: Seq<Seq<char>>) -> Seq<char>
    decreases xs, 1nat,
{
    if xs.len() == 0 {
        Seq::empty()
    } else if xs.len() == 1 {
        print_spec(xs[0].0, names) + seq![' '] + print_spec(xs[0].1, names)
    } else {
        join_pairs(xs.drop_last(), names) + seq![' '] + print_spec(xs.last().0, names) + seq![' ']
            + print_spec(xs.last().1, names)
    }
}

/// `print`: the readable text of a value.
pub fn print<P: Platform>(v: &Value, interner: &Interner, p: &P) -> (r: String)
    ensures
        printable(*v, interner@.len()) ==> r@ == print_spec(*v, interner@),
        *v matches Value::Float(b) ==> (!float_is_nan(b) && !float_is_infinite(b) ==> sign_shown(b, r@) && float_marked(r@)),
{
    let mut out = String::new();
    match v {
        Value::Float(b) => {
            write_float(&mut out, *b, p);
            proof {
                assert(out@.subrange(0, out@.len() as int) =~= out@);
            }
            return out;
        },
        _ => {},
    }
    write(&mut out, v, interner, p);
    proof {
        assert(Seq::<char>::empty() + print_spec(*v, interner@) =~= print_spec(*v, interner@));
    }
    out
}

/// What `println` emits: a string is its own characters, not a readable
/// literal. Only the top level is affected.
pub fn display<P: Platform>(v: &Value, interner: &Interner, p: &P) -> (r: String)
    ensures
        v matches Value::Str(s) ==> r@ == s.0@,
        !(v is Str) && printable(*v, interner@.len()) ==> r@ == print_spec(*v, interner@),
        *v matches Value::Float(b) ==> (!float_is_nan(b) && !float_is_infinite(b) ==> sign_shown(b, r@) && float_marked(r@)),
{
    match v {
        Value::Str(s) => copy_str(s.0.as_str()),
        _ => print(v, interner, p),
    }
}

fn write_opaque(out: &mut String, tag: &str, a: u32, b: u32)
    ensures
        final(out)@ == old(out)@ + opaque_pair(tag@, a, b),
{
    push_str(out, "#<");
    push_str(out, tag);
    push_char(out, ' ');
    let x = nat_to_text(a as u64);
    push_str(out, x.as_str());
    push_char(out, ':');
    let y = nat_to_text(b as u64);
    push_str(out, y.as_str());
    push_char(out, '>');
    proof {
        reveal_strlit("#<");
        assert(out@ =~= old(out)@ + opaque_pair(tag@, a, b));
    }
}

/// Floats print in a form that reads back as a float: a finite float with
/// no point or exponent in its text gains `.0`, so it does not read back as
/// an integer.
/// The text of a finite float shows the float's own sign: it starts with a
/// minus exactly when the sign bit is set, and that minus is not doubled.
pub open spec fn sign_shown(b: u64, t: Seq<char>) -> bool {
    &&& t.len() > 0
    &&& (t[0] == '-') == ((b >> 63u64) == 1)
    &&& (b >> 63u64) == 1 && t.len() > 1 ==> t[1] != '-'
}

/// The text has a point or an exponent in it, so it reads back as a float
/// and never as an integer.
pub open spec fn float_marked(t: Seq<char>) -> bool {
    exists|j: int| 0 <= j < t.len() && (t[j] == '.' || t[j] == 'e' || t[j] == 'E')
}

/// A float and its negation never print alike: of a finite float and the
/// same float with its sign flipped, exactly one prints with a leading
/// minus, and it is the one whose sign bit is set.
pub proof fn lemma_negation_shows_in_print(b: u64, t: Seq<char>, u: Seq<char>)
    requires
        !float_is_nan(b),
        !float_is_infinite(b),
        sign_shown(b, t),
        sign_shown(b ^ 0x8000_0000_0000_0000u64, u),
    ensures
        (t[0] == '-') != (u[0] == '-'),
        (t[0] == '-') == ((b >> 63u64) == 1),
        t != u,
{
    assert(((b ^ 0x8000_0000_0000_0000u64) >> 63u64 == 1) == !(b >> 63u64 == 1)) by (bit_vector);
}

fn write_float<P: Platform>(out: &mut String, b: u64, p: &P)
    ensures
        float_is_nan(b) || float_is_infinite(b) ==> final(out)@ == old(out)@ + float_text(b),
        !float_is_nan(b) && !float_is_infinite(b) ==> final(out)@.len() > old(out)@.len() && sign_shown(
            b,
            final(out)@.subrange(old(out)@.len() as int, final(out)@.len() as int),
        ),
        !float_is_nan(b) && !float_is_infinite(b) ==> float_marked(
            final(out)@.subrange(old(out)@.len() as int, final(out)@.len() as int),
        ),
{
    if is_nan(b) {
        push_str(out, "##NaN");
        proof {
            reveal_strlit("##NaN");
            assert(out@ =~= old(out)@ + float_text(b));
        }
    } else if is_infinite(b) {
        if b == 0x7ff0_0000_0000_0000u64 {
            push_str(out, "##Inf");
            proof {
                reveal_strlit("##Inf");
                assert(out@ =~= old(out)@ + float_text(b));
            }
        } else {
            push_str(out, "##-Inf");
            proof {
                reveal_strlit("##-Inf");
                assert(out@ =~= old(out)@ + float_text(b));
            }
        }
    } else {
        // The sign is the float's own: the host's text only supplies the
        // digits, so a leading minus appears exactly for a negative float.
        let text = p.format_float(b);
        let cs = crate::text::chars_of(text.as_str());
        let mut k: usize = 0;
        while k < cs.len() && cs[k] == '-'
            invariant
                k <= cs@.len(),
                forall|j: int| 0 <= j < k ==> cs@[j] == '-',
            decreases cs@.len() - k,
        {
            k = k + 1;
        }
        let ghost start = old(out)@.len() as int;
        if (b >> 63u64) == 1 {
            push_char(out, '-');
        }
        let digits = crate::text::string_of_range(cs.as_slice(), k, cs.len());
        push_str(out, digits.as_str());
        let ghost mid = out@;
        let mut marked = false;
        let mut i: usize = 0;
        while i < cs.len()
            invariant
                i <= cs@.len(),
                marked ==> exists|j: int| 0 <= j < i && (cs@[j] == '.' || cs@[j] == 'e' || cs@[j] == 'E'),
                out@ == mid,
            decreases cs@.len() - i,
        {
            if cs[i] == '.' || cs[i] == 'e' || cs[i] == 'E' {
                marked = true;
            }
            i = i + 1;
        }
        if !marked {
            push_str(out, ".0");
            proof {
                reveal_strlit(".0");
            }
        }
        proof {
            let t = out@.subrange(start, out@.len() as int);
            assert(k < cs@.len() ==> cs@[k as int] != '-');
            if (b >> 63u64) == 1 {
                assert(t[0] == '-');
                if t.len() > 1 {
                    if k < cs@.len() {
                        assert(t[1] == cs@[k as int]);
                    } else {
                        assert(t[1] == '.');
                    }
                }
            } else if k < cs@.len() {
                assert(t[0] == cs@[k as int]);
            } else {
                assert(t[0] == '.');
            }
            assert(out@.len() > start);
            assert(sign_shown(b, t));
            let off: int = if (b >> 63u64) == 1 { 1 } else { 0 };
            if marked {
                let j = choose|j: int| 0 <= j < cs@.len() && (cs@[j] == '.' || cs@[j] == 'e' || cs@[j] == 'E');
                assert(j >= k);
                assert(t[off + j - k] == cs@[j]);
            } else {
                assert(t[t.len() - 2] == '.');
            }
            assert(float_marked(t));
        }
    }
}

fn write_string(out: &mut String, s: &str)
    ensures
        final(out)@ == old(out)@ + string_literal(s@),
{
    push_char(out, '"');
    let cs = crate::text::chars_of(s);
    let ghost start = out@;
    let mut i: usize = 0;
    while i < cs.len()
        invariant
            i <= cs@.len(),
            cs@ == s@,
            out@ == start + escape(cs@.take(i as int)),
        decreases cs@.len() - i,
    {
        let c = cs[i];
        let ghost before = out@;
        if c == '"' {
            push_char(out, '\\');
            push_char(out, '"');
        } else if c == '\\' {
            push_char(out, '\\');
            push_char(out, '\\');
        } else if c == '\n' {
            push_char(out, '\\');
            push_char(out, 'n');
        } else if c == '\t' {
            push_char(out, '\\');
            push_char(out, 't');
        } else if c == '\r' {
            push_char(out, '\\');
            push_char(out, 'r');
        } else {
            push_char(out, c);
        }
        proof {
            assert(out@ =~= before + escape_char(c));
            assert(cs@.take(i + 1).drop_last() =~= cs@.take(i as int));
            assert(cs@.take(i + 1).last() == c);
            assert(escape(cs@.take(i + 1)) == escape(cs@.take(i as int)) + escape_char(c));
            assert(out@ =~= start + escape(cs@.take(i + 1)));
        }
        i = i + 1;
    }
    push_char(out, '"');
    proof {
        assert(cs@.take(cs@.len() as int) =~= cs@);
        assert(out@ =~= old(out)@ + string_literal(s@));
    }
}

fn write_bytes(out: &mut String, bs: &Vec<u8>)
    ensures
        final(out)@ == old(out)@ + seq!['#', 'b', 'y', 't', 'e', 's', '['] + byte_list(bs@) + seq![']'],
{
    push_str(out, "#bytes[");
    proof {
        reveal_strlit("#bytes[");
    }
    let ghost start = out@;
    let mut i: usize = 0;
    while i < bs.len()
        invariant
            i <= bs@.len(),
            out@ == start + byte_list(bs@.take(i as int)),
        decreases bs@.len() - i,
    {
        let ghost before = out@;
        if i > 0 {
            push_char(out, ' ');
        }
        let d = nat_to_text(bs[i] as u64);
        push_str(out, d.as_str());
        proof {
            let t = bs@.take(i + 1);
            assert(t.drop_last() =~= bs@.take(i as int));
            assert(t.last() == bs@[i as int]);
            if i == 0 {
                assert(t.len() == 1);
                assert(out@ =~= start + byte_list(t));
            } else {
                assert(out@ =~= start + byte_list(t));
            }
        }
        i = i + 1;
    }
    push_char(out, ']');
    proof {
        assert(bs@.take(bs@.len() as int) =~= bs@);
        assert(out@ =~= old(out)@ + seq!['#', 'b', 'y', 't', 'e', 's', '['] + byte_list(bs@)
            + seq![']']);
    }
}

#[verifier::loop_isolation(false)]
fn write_items<P: Platform>(out: &mut String, l: &Vec<Value>, it: &Interner, p: &P)
    ensures
        (forall|i: int| 0 <= i < l@.len() ==> printable(#[trigger] l@[i], it@.len()))
            ==> final(out)@ == old(out)@ + join(l@, it@),
    decreases l@, 0nat,
{
    let ghost good = forall|i: int| 0 <= i < l@.len() ==> printable(#[trigger] l@[i], it@.len());
    let ghost start = out@;
    let mut i: usize = 0;
    while i < l.len()
        invariant
            i <= l@.len(),
            good ==> out@ == start + join(l@.take(i as int), it@),
        decreases l@.len() - i,
    {
        proof {
            assert(decreases_to!(l@ => l@[i as int]));
        }
        if i > 0 {
            push_char(out, ' ');
        }
        write(out, &l[i], it, p);
        proof {
            if good {
                assert(printable(l@[i as int], it@.len()));
                let t = l@.take(i + 1);
                assert(t.drop_last() =~= l@.take(i as int));
                assert(t.last() == l@[i as int]);
                if i == 0 {
                    assert(t.len() == 1);
                    assert(t[0] == l@[0]);
                    assert(out@ =~= start + join(t, it@));
                } else {
                    assert(out@ =~= start + join(t, it@));
                }
            }
        }
        i = i + 1;
    }
    proof {
        assert(l@.take(l@.len() as int) =~= l@);
    }
}

#[verifier::loop_isolation(false)]
fn write_pairs<P: Platform>(out: &mut String, m: &Vec<(Value, Value)>, it: &Interner, p: &P)
    ensures
        pairs_printable(m@, it@.len()) ==> final(out)@ == old(out)@ + join_pairs(m@, it@),
    decreases m@, 0nat,
{
    let ghost good = pairs_printable(m@, it@.len());
    let ghost start = out@;
    let mut i: usize = 0;
    while i < m.len()
        invariant
            i <= m@.len(),
            good ==> out@ == start + join_pairs(m@.take(i as int), it@),
        decreases m@.len() - i,
    {
        proof {
            assert(decreases_to!(m@ => m@[i as int]));
            assert(decreases_to!(m@[i as int] => m@[i as int].0));
            assert(decreases_to!(m@[i as int] => m@[i as int].1));
        }
        if i > 0 {
            push_char(out, ' ');
        }
        write(out, &m[i].0, it, p);
        push_char(out, ' ');
        write(out, &m[i].1, it, p);
        proof {
            if good {
                assert(printable(m@[i as int].0, it@.len()) && printable(m@[i as int].1, it@.len()));
                let t = m@.take(i + 1);
                assert(t.drop_last() =~= m@.take(i as int));
                assert(t.last() == m@[i as int]);
                if i == 0 {
                    assert(t.len() == 1);
                    assert(t[0] == m@[0]);
                    assert(out@ =~= start + join_pairs(t, it@));
                } else {
                    assert(out@ =~= start + join_pairs(t, it@));
                }
            }
        }
        i = i + 1;
    }
    proof {
        assert(m@.take(m@.len() as int) =~= m@);
    }
}

fn write<P: Platform>(out: &mut String, v: &Value, it: &Interner, p: &P)
    ensures
        printable(*v, it@.len()) ==> final(out)@ == old(out)@ + print_spec(*v, it@),
    decreases *v, 1nat,
{
    match v {
        Value::Nil => {
            push_str(out, "nil");
            proof {
                reveal_strlit("nil");
            }
        },
        Value::Bool(b) => {
            if *b {
                push_str(out, "true");
                proof {
                    reveal_strlit("true");
                }
            } else {
                push_str(out, "false");
                proof {
                    reveal_strlit("false");
                }
            }
        },
        Value::Int(i) => {
            let t = int_to_text(*i);
            push_str(out, t.as_str());
        },
        Value::Float(b) => write_float(out, *b, p),
        Value::Str(s) => write_string(out, s.0.as_str()),
        Value::Bytes(b) => write_bytes(out, &b.0),
        Value::Sym(s) => push_str(out, it.name_or_empty(s.0)),
        Value::Keyword(k) => {
            push_char(out, ':');
            push_str(out, it.name_or_empty(k.0));
            proof {
                if printable(*v, it@.len()) {
                    assert(out@ =~= old(out)@ + print_spec(*v, it@));
                }
            }
        },
        Value::List(l) => {
            push_char(out, '(');
            write_items(out, l, it, p);
            push_char(out, ')');
            proof {
                if printable(*v, it@.len()) {
                    assert(out@ =~= old(out)@ + print_spec(*v, it@));
                }
            }
        },
        Value::Vec(l) => {
            push_char(out, '[');
            write_items(out, l, it, p);
            push_char(out, ']');
            proof {
                if printable(*v, it@.len()) {
                    assert(out@ =~= old(out)@ + print_spec(*v, it@));
                }
            }
        },
        Value::Dict(m) => {
            push_char(out, '{');
            write_pairs(out, m, it, p);
            push_char(out, '}');
            proof {
                if printable(*v, it@.len()) {
                    assert(out@ =~= old(out)@ + print_spec(*v, it@));
                }
            }
        },
        Value::Fn(_) => {
            push_str(out, "#<fn>");
            proof {
                reveal_strlit("#<fn>");
            }
        },
        Value::Cell(c) => {
            write_opaque(out, "cell", c.0, c.1);
            proof {
                reveal_strlit("cell");
            }
        },
        Value::Handle(h) => {
            write_opaque(out, "handle", h.0, h.1);
            proof {
                reveal_strlit("handle");
            }
        },
        Value::Buffer(b) => {
            write_opaque(out, "buffer", b.0, b.1);
            proof {
                reveal_strlit("buffer");
            }
        },
    }
}


// --- origins, for debugging ------------------------------------------------------

/// `depth` levels of two-space indentation.
pub open spec fn indent(depth: nat) -> Seq<char>
    decreases depth,
{
    if depth == 0 {
        Seq::empty()
    } else {
        indent((depth - 1) as nat) + "  "@
    }
}

/// Where an origin points, as the debug rendering shows it.
pub open spec fn origin_loc(o: SpanOrigin) -> Seq<char> {
    match o {
        SpanOrigin::Source(s) => nat_digits(s.start as nat) + ".."@ + nat_digits(s.end as nat),
        SpanOrigin::Generated(s) => "generated@"@ + nat_digits(s.start as nat) + ".."@ + nat_digits(
            s.end as nat,
        ),
        SpanOrigin::Unknown => "unknown"@,
    }
}

/// One line per node: indentation, where it came from, its kind, and its
/// printed text; then each child paired with its origin, one level deeper.
pub open spec fn origins_text(v: Value, o: Origins, names: Seq<Seq<char>>, pad: Seq<char>) -> Seq<char>
    decreases o, 1nat,
{
    pad + origin_loc(o.origin) + " "@ + kind_name_spec(v)@ + " "@ + print_spec(v, names) + children_text(
        children_spec(v),
        o.children@,
        names,
        pad + "  "@,
    )
}

pub open spec fn children_text(vs: Seq<Value>, os: Seq<Origins>, names: Seq<Seq<char>>, pad: Seq<char>) -> Seq<
    char,
>
    decreases os, 0nat,
{
    if os.len() == 0 || vs.len() == 0 {
        Seq::empty()
    } else {
        seq!['\n'] + origins_text(vs[0], os[0], names, pad) + children_text(
            vs.drop_first(),
            os.drop_first(),
            names,
            pad,
        )
    }
}

proof fn lemma_children_printable(v: Value, n: nat)
    requires
        printable(v, n),
    ensures
        forall|i: int| 0 <= i < children_spec(v).len() ==> printable(#[trigger] children_spec(v)[i], n),
{
    if let Value::Dict(m) = v {
        assert forall|i: int| 0 <= i < children_spec(v).len() implies printable(#[trigger] children_spec(v)[i], n) by {
            assert(children_spec(v) == flatten_pairs(m@));
            assert(0 <= i / 2 < m@.len());
            assert(printable(m@[i / 2].0, n) && printable(m@[i / 2].1, n));
        }
    }
}

/// The debug rendering of a value with its origins. Origins never show in
/// ordinary printed output, so without this they could only be inspected
/// through a debugger.
pub fn print_origins<P: Platform>(v: &Value, o: &Origins, interner: &Interner, p: &P, depth: usize) -> (r: String)
    ensures
        printable(*v, interner@.len()) ==> r@ == origins_text(*v, *o, interner@, indent(depth as nat)),
{
    let mut pad = String::new();
    let mut i: usize = 0;
    proof {
        assert(pad@ =~= indent(0));
    }
    while i < depth
        invariant
            i <= depth,
            pad@ == indent(i as nat),
        decreases depth - i,
    {
        push_str(&mut pad, "  ");
        i = i + 1;
    }
    origins_under(v, o, interner, p, pad)
}

fn origins_under<P: Platform>(v: &Value, o: &Origins, interner: &Interner, p: &P, pad: String) -> (r: String)
    ensures
        printable(*v, interner@.len()) ==> r@ == origins_text(*v, *o, interner@, pad@),
    decreases *o,
{
    let mut out = copy_str(pad.as_str());
    match o.origin {
        SpanOrigin::Source(s) => {
            push_str(&mut out, nat_to_text(s.start as u64).as_str());
            push_str(&mut out, "..");
            push_str(&mut out, nat_to_text(s.end as u64).as_str());
        },
        SpanOrigin::Generated(s) => {
            push_str(&mut out, "generated@");
            push_str(&mut out, nat_to_text(s.start as u64).as_str());
            push_str(&mut out, "..");
            push_str(&mut out, nat_to_text(s.end as u64).as_str());
        },
        SpanOrigin::Unknown => push_str(&mut out, "unknown"),
    }
    proof {
        assert(out@ =~= pad@ + origin_loc(o.origin));
    }
    push_str(&mut out, " ");
    push_str(&mut out, kind_name(v));
    push_str(&mut out, " ");
    let printed = print(v, interner, p);
    push_str(&mut out, printed.as_str());
    let ghost head = out@;
    let kids = children(v);
    let ghost vs = kids@;
    let ghost os = o.children@;
    let mut deeper = copy_str(pad.as_str());
    push_str(&mut deeper, "  ");
    let ghost dp = deeper@;
    let ghost n = interner@.len();
    proof {
        assert(vs.skip(0) =~= vs);
        assert(os.skip(0) =~= os);
        if printable(*v, n) {
            lemma_children_printable(*v, n);
        }
    }
    let mut i: usize = 0;
    while i < kids.len() && i < o.children.len()
        invariant
            vs == kids@,
            os == o.children@,
            vs == children_spec(*v),
            dp == deeper@,
            n == interner@.len(),
            i <= vs.len(),
            i <= os.len(),
            printable(*v, n) ==> forall|k: int| 0 <= k < vs.len() ==> printable(#[trigger] vs[k], n),
            printable(*v, n) ==> out@ + children_text(vs.skip(i as int), os.skip(i as int), interner@, dp)
                == head + children_text(vs, os, interner@, dp),
        decreases vs.len() - i,
    {
        let ghost before = out@;
        push_char(&mut out, '\n');
        let child = origins_under(&kids[i], &o.children[i], interner, p, copy_str(deeper.as_str()));
        push_str(&mut out, child.as_str());
        proof {
            assert(vs.skip(i as int).drop_first() =~= vs.skip(i + 1));
            assert(os.skip(i as int).drop_first() =~= os.skip(i + 1));
            if printable(*v, n) {
                assert(printable(vs[i as int], n));
                let here = origins_text(vs[i as int], os[i as int], interner@, dp);
                let rest = children_text(vs.skip(i + 1), os.skip(i + 1), interner@, dp);
                assert(children_text(vs.skip(i as int), os.skip(i as int), interner@, dp) == seq!['\n'] + here
                    + rest);
                assert(before + (seq!['\n'] + here + rest) =~= out@ + rest);
            }
        }
        i = i + 1;
    }
    proof {
        if printable(*v, n) {
            assert(children_text(vs.skip(i as int), os.skip(i as int), interner@, dp) =~= Seq::<char>::empty());
            assert(out@ + Seq::<char>::empty() =~= out@);
        }
    }
    out
}

} // verus!
