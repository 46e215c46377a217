//! The reader. Character-driven and producing data, not a grammar-shaped
//! tree, so there is no separate tokenizer to fight reader-macro dispatch.

use crate::error::{LispErr, Span, SpanOrigin};
use crate::platform::Platform;
use crate::text::{
    byte_offset, cat3, char_width, chars_of, copy_str, lemma_byte_offset_mono, lemma_int_text_parses,
    lemma_byte_offset_step, parse_i64, parse_i64_spec, push_char, string_of_range, utf8_len,
    width_of,
};
use crate::printer::{printable, print_spec, join, join_pairs, escape, escape_char, string_literal, float_text};
use crate::value::{
    last_index_of, lang_eq, float_is_nan, equal, find_key, find_key_index, grows, lemma_find_key_range, Interner, LocatedForm, Origins,
    StrObj, Value, NAN_BITS, NEG_INFINITY_BITS, POS_INFINITY_BITS, float_is_infinite, is_infinite,
};
use std::rc::Rc;
use vstd::prelude::*;

verus! {

/// Every phase in front of the VM recurses once per level of form nesting,
/// so bounding the depth here bounds all of them.
pub const MAX_NESTING: usize = 256;

/// `u8::is_ascii_whitespace`.
pub open spec fn is_ascii_ws(c: char) -> bool {
    c == ' ' || c == '\t' || c == '\n' || c == '\x0C' || c == '\r'
}

/// Commas are whitespace, as in Clojure.
pub open spec fn is_ws(c: char) -> bool {
    is_ascii_ws(c) || c == ','
}

/// Where a token ends.
pub open spec fn is_delim(c: char) -> bool {
    is_ascii_ws(c) || c == '(' || c == ')' || c == '[' || c == ']' || c == '{' || c == '}' || c
        == '"' || c == ';' || c == ',' || c == '`' || c == '~'
}

fn ws_char(c: char) -> (r: bool)
    ensures
        r == is_ws(c),
{
    c == ' ' || c == '\t' || c == '\n' || c == '\x0C' || c == '\r' || c == ','
}

fn delim_char(c: char) -> (r: bool)
    ensures
        r == is_delim(c),
{
    c == ' ' || c == '\t' || c == '\n' || c == '\x0C' || c == '\r' || c == '(' || c == ')' || c
        == '[' || c == ']' || c == '{' || c == '}' || c == '"' || c == ';' || c == ',' || c == '`'
        || c == '~'
}

/// `n`, or the largest `usize` where `n` is larger.
pub open spec fn saturated(n: nat) -> usize {
    if n <= usize::MAX {
        n as usize
    } else {
        usize::MAX
    }
}

struct Reader {
    chars: Vec<char>,
    pos: usize,
    /// The byte offset of `pos`, which is what spans hold, saturating at
    /// the largest offset a `usize` holds.
    byte: usize,
}

impl Reader {
    spec fn wf(&self) -> bool {
        &&& self.pos <= self.chars@.len()
        &&& self.byte == saturated(byte_offset(self.chars@, self.pos as int))
    }

    /// What every reading step keeps: the source, well-formedness, and a
    /// position that never moves back.
    spec fn step(self, next: Reader) -> bool {
        &&& next.wf()
        &&& next.chars@ == self.chars@
        &&& self.pos <= next.pos
    }

    fn at_end(&self) -> (r: bool)
        ensures
            r == (self.pos >= self.chars@.len()),
    {
        self.pos >= self.chars.len()
    }

    fn peek(&self) -> (r: Option<char>)
        ensures
            r == (if self.pos < self.chars@.len() {
                Some(self.chars@[self.pos as int])
            } else {
                None
            }),
    {
        if self.pos < self.chars.len() {
            Some(self.chars[self.pos])
        } else {
            None
        }
    }

    fn advance(&mut self)
        requires
            old(self).wf(),
            old(self).pos < old(self).chars@.len(),
        ensures
            final(self).wf(),
            final(self).chars@ == old(self).chars@,
            final(self).pos == old(self).pos + 1,
    {
        proof {
            lemma_byte_offset_step(self.chars@, self.pos as int);
        }
        let n = self.chars.len();
        let w = width_of(self.chars[self.pos]);
        self.byte = self.byte.saturating_add(w);
        assert(self.pos < n);
        self.pos = self.pos + 1;
    }

    /// Whitespace, commas and `;` comments, up to the next thing that is
    /// none of them.
    fn skip_ws(&mut self)
        requires
            old(self).wf(),
        ensures
            old(self).step(*final(self)),
            final(self).pos == final(self).chars@.len() || (!is_ws(
                final(self).chars@[final(self).pos as int],
            ) && final(self).chars@[final(self).pos as int] != ';'),
            old(self).pos < old(self).chars@.len() && !is_ws(old(self).chars@[old(self).pos as int])
                && old(self).chars@[old(self).pos as int] != ';' ==> final(self).pos == old(self).pos,
            old(self).pos + 1 < old(self).chars@.len() && old(self).chars@[old(self).pos as int] == ' '
                && !is_ws(old(self).chars@[old(self).pos + 1]) && old(self).chars@[old(self).pos + 1] != ';'
                ==> final(self).pos == old(self).pos + 1,
    {
        let ghost p0 = self.pos as int;
        let ghost cs = self.chars@;
        let ghost stays = p0 < cs.len() && !is_ws(cs[p0]) && cs[p0] != ';';
        let ghost one = p0 + 1 < cs.len() && cs[p0] == ' ' && !is_ws(cs[p0 + 1]) && cs[p0 + 1] != ';';
        loop
            invariant
                old(self).step(*self),
                cs == self.chars@,
                p0 == old(self).pos,
                stays == (p0 < cs.len() && !is_ws(cs[p0]) && cs[p0] != ';'),
                one == (p0 + 1 < cs.len() && cs[p0] == ' ' && !is_ws(cs[p0 + 1]) && cs[p0 + 1] != ';'),
                stays ==> self.pos == p0,
                one ==> self.pos <= p0 + 1,
            decreases self.chars@.len() - self.pos,
        {
            match self.peek() {
                Some(c) => {
                    if ws_char(c) {
                        self.advance();
                    } else if c == ';' {
                        let ghost before = self.pos;
                        self.advance();
                        while self.pos < self.chars.len() && self.chars[self.pos] != '\n'
                            invariant
                                old(self).step(*self),
                                self.pos > before,
                                cs == self.chars@,
                                p0 == old(self).pos,
                                stays ==> false,
                                one ==> false,
                            decreases self.chars@.len() - self.pos,
                        {
                            self.advance();
                        }
                    } else {
                        return;
                    }
                },
                None => {
                    return;
                },
            }
        }
    }

    /// Up to the next delimiter or the end.
    fn scan_token(&mut self)
        requires
            old(self).wf(),
        ensures
            old(self).step(*final(self)),
            forall|i: int|
                old(self).pos <= i < final(self).pos ==> !is_delim(#[trigger] final(self).chars@[i]),
            final(self).pos == final(self).chars@.len() || is_delim(
                final(self).chars@[final(self).pos as int],
            ),
    {
        while self.pos < self.chars.len() && !delim_char(self.chars[self.pos])
            invariant
                old(self).step(*self),
                forall|i: int| old(self).pos <= i < self.pos ==> !is_delim(#[trigger] self.chars@[i]),
            decreases self.chars@.len() - self.pos,
        {
            self.advance();
        }
    }

    fn err_here(&self, msg: String) -> (e: LispErr)
        ensures
            e.origin == SpanOrigin::Source(Span { start: self.byte as u32, end: self.byte as u32 }),
            e.msg@ == msg@,
            !e.truncated,
    {
        LispErr::at(Span::new(self.byte, self.byte), msg)
    }
}

/// The long form a reader macro at `p` stands for: `'x` reads as
/// `(quote x)`, `` `x `` as `(quasiquote x)`, `~@x` as
/// `(unquote-splicing x)` and `~x` as `(unquote x)`.
pub open spec fn sugar_name(cs: Seq<char>, p: int) -> Option<Seq<char>> {
    if !(0 <= p < cs.len()) {
        None
    } else if cs[p] == '\'' {
        Some("quote"@)
    } else if cs[p] == '`' {
        Some("quasiquote"@)
    } else if cs[p] == '~' {
        if p + 1 < cs.len() && cs[p + 1] == '@' {
            Some("unquote-splicing"@)
        } else {
            Some("unquote"@)
        }
    } else {
        None
    }
}

/// How many characters the reader macro at `p` takes: two for `~@`, one
/// for the others.
pub open spec fn sugar_width(cs: Seq<char>, p: int) -> int {
    if cs[p] == '~' && p + 1 < cs.len() && cs[p + 1] == '@' {
        2
    } else {
        1
    }
}

/// `v` is a two-item list whose second item reads as `w`.
pub open spec fn wraps(v: Value, w: Value) -> bool {
    v matches Value::List(l) && l@.len() == 2 && same_read(l@[1], w)
}

/// `v` is a two-item list headed by the symbol `names` spells `name`.
pub open spec fn headed_by(v: Value, names: Seq<Seq<char>>, name: Seq<char>) -> bool {
    &&& v matches Value::List(l) && l@.len() == 2
    &&& v->List_0@[0] matches Value::Sym(h) && (h.0 as int) < names.len() && names[h.0 as int] == name
}

/// What the reader macros read as, said character by character: a text
/// whose first form starts with `'` reads as a `quote` form, with `` ` `` as
/// a `quasiquote` form, with `~@` as an `unquote-splicing` form and with any
/// other `~` as an `unquote` form.
pub proof fn lemma_reader_macros(src: Seq<char>, names: Seq<Seq<char>>, first: Value)
    requires
        src.len() > 0,
        sugar_name(src, 0) matches Some(n) ==> headed_by(first, names, n),
    ensures
        src[0] == '\'' ==> headed_by(first, names, "quote"@),
        src[0] == '`' ==> headed_by(first, names, "quasiquote"@),
        src[0] == '~' && src.len() > 1 && src[1] == '@' ==> headed_by(first, names, "unquote-splicing"@),
        src[0] == '~' && !(src.len() > 1 && src[1] == '@') ==> headed_by(first, names, "unquote"@),
{
}

/// Read every form in `src`, in order.
///
/// Reading only ever adds names to the interner; ids already handed out keep
/// naming what they named. On success every top-level form reports a source
/// span inside `src`. What the printer wrote of a readable value reads back
/// as that value, and adds no name.
pub fn read_all<P: Platform>(src: &str, interner: &mut Interner, p: &P) -> (r: Result<
    Vec<LocatedForm>,
    LispErr,
>)
    ensures
        grows(old(interner)@, final(interner)@),
        r matches Ok(forms) ==> forall|i: int|
            0 <= i < forms@.len() ==> (#[trigger] forms@[i]).origins.origin is Source,
        forall|v: Value|
            readable(v, old(interner)@, 0) && src@ == #[trigger] print_spec(v, old(interner)@) ==> (r matches Ok(
                forms,
            ) && forms@.len() == 1 && same_read(forms@[0].root, v) && final(interner)@ == old(interner)@),
        (forall|i: int| 0 <= i < src@.len() ==> is_ws(#[trigger] src@[i])) ==> (r matches Ok(forms) && forms@.len()
            == 0),
        opens_string(src@, 0) && scan_string(src@, 1) is Unclosed ==> (r matches Err(e) && e.truncated),
        r matches Ok(forms) ==> (old(interner)@.len() < u32::MAX ==> (sugar_name(src@, 0) matches Some(n) ==> forms@.len()
            >= 1 && headed_by(forms@[0].root, final(interner)@, n))),
        r matches Ok(forms) ==> (sugar_name(src@, 0) matches Some(n) ==> (forall|v: Value|
            #[trigger] printed_at(src@, sugar_width(src@, 0), v, with_name(old(interner)@, n), 1) ==> forms@.len()
                >= 1 && wraps(forms@[0].root, v))),
{
    let ghost names = interner@;
    let chars = chars_of(src);
    let mut r = Reader { chars, pos: 0, byte: 0 };
    proof {
        assert(r.chars@.take(0) =~= Seq::<char>::empty());
        assert forall|v: Value| readable(v, names, 0) && src@ == #[trigger] print_spec(v, names) implies printed_at(
            src@,
            0,
            v,
            names,
            0,
        ) && !is_ws(src@[0]) && src@[0] != ';' by {
            lemma_print_shape(v, names, 0);
            assert(src@.subrange(0, src@.len() as int) =~= src@);
        }
    }
    let mut out: Vec<LocatedForm> = Vec::new();
    loop
        invariant
            r.wf(),
            r.chars@ == src@,
            grows(old(interner)@, interner@),
            names == old(interner)@,
            forall|i: int|
                0 <= i < out@.len() ==> (#[trigger] out@[i]).origins.origin is Source,
            forall|v: Value|
                readable(v, names, 0) && src@ == #[trigger] print_spec(v, names) ==> (out@.len() == 0 && r.pos == 0
                    && interner@ == names) || (out@.len() == 1 && same_read(out@[0].root, v) && r.pos
                    == src@.len() && interner@ == names),
            (forall|i: int| 0 <= i < src@.len() ==> is_ws(#[trigger] src@[i])) ==> out@.len() == 0,
            opens_string(src@, 0) && scan_string(src@, 1) is Unclosed ==> out@.len() == 0 && r.pos == 0,
            sugar_name(src@, 0) is Some ==> out@.len() == 0 ==> r.pos == 0,
            out@.len() == 0 ==> interner@ == names,
            sugar_name(src@, 0) matches Some(n) ==> out@.len() >= 1 ==> (forall|v: Value|
                #[trigger] printed_at(src@, sugar_width(src@, 0), v, with_name(names, n), 1) ==> wraps(out@[0].root, v)),
            names.len() < u32::MAX ==> (sugar_name(src@, 0) matches Some(n) ==> out@.len() >= 1 ==> headed_by(
                out@[0].root,
                interner@,
                n,
            )),
        decreases r.chars@.len() - r.pos,
    {
        let ghost before = out@;
        r.skip_ws();
        if r.at_end() {
            proof {
                assert forall|v: Value| readable(v, names, 0) && src@ == #[trigger] print_spec(v, names) implies out@.len()
                    == 1 by {
                    lemma_print_shape(v, names, 0);
                    assert(src@.subrange(0, src@.len() as int) =~= src@);
                    assert(printed_at(src@, 0, v, names, 0));
                }
            }
            return Ok(out);
        }
        let ghost it0 = interner@;
        let f = read_form(&mut r, interner, p, 0);
        match f {
            Ok(f) => {
                proof {
                    if before.len() >= 1 && names.len() < u32::MAX && sugar_name(src@, 0) is Some {
                        let h = before[0].root->List_0@[0]->Sym_0;
                        assert(interner@[h.0 as int] == it0[h.0 as int]);
                    }
                }
                out.push(f);
                proof {
                    if before.len() >= 1 {
                        assert(out@[0] == before[0]);
                    }
                }
                proof {
                    assert forall|v: Value| readable(v, names, 0) && src@ == #[trigger] print_spec(v, names) implies out@.len()
                        == 1 && same_read(out@[0].root, v) && r.pos == src@.len() && interner@ == names by {
                        lemma_print_shape(v, names, 0);
                        assert(src@.subrange(0, src@.len() as int) =~= src@);
                        assert(printed_at(src@, 0, v, names, 0));
                    }
                }
            },
            Err(e) => {
                proof {
                    assert forall|v: Value| readable(v, names, 0) && src@ == #[trigger] print_spec(v, names) implies false by {
                        lemma_print_shape(v, names, 0);
                        assert(src@.subrange(0, src@.len() as int) =~= src@);
                        assert(printed_at(src@, 0, v, names, 0));
                    }
                }
                return Err(e);
            },
        }
    }
}

/// A located form whose origin is a source span.
spec fn sourced(f: LocatedForm) -> bool {
    f.origins.origin is Source
}

fn located(root: Value, span: Span) -> (f: LocatedForm)
    ensures
        f.root == root,
        f.origins.origin == SpanOrigin::Source(span),
        f.origins.children@.len() == 0,
{
    LocatedForm { root, origins: Origins::leaf(SpanOrigin::Source(span)) }
}

/// A span between two byte offsets of the reader, which never truncates.
fn span_between(r: &Reader, start: usize) -> (s: Span)
    ensures
        s == (Span { start: start as u32, end: r.byte as u32 }),
{
    Span::new(start, r.byte)
}

/// One form. The depth bound lives here because every recursive case goes
/// through this one point.
fn read_form<P: Platform>(r: &mut Reader, it: &mut Interner, p: &P, depth: usize) -> (res: Result<
    LocatedForm,
    LispErr,
>)
    requires
        old(r).wf(),
        depth <= MAX_NESTING,
    ensures
        old(r).step(*final(r)),
        grows(old(it)@, final(it)@),
        res matches Ok(f) ==> final(r).pos > old(r).pos && sourced(f),
        forall|v: Value|
            #[trigger] printed_at(old(r).chars@, old(r).pos as int, v, old(it)@, depth as int) ==> (res matches Ok(
                f,
            ) && same_read(f.root, v) && final(r).pos == old(r).pos + print_spec(v, old(it)@).len()
                && final(it)@ == old(it)@),
        depth < MAX_NESTING && opens_string(old(r).chars@, old(r).pos as int) ==> (scan_string(old(r).chars@, old(r).pos + 1) is Unclosed
            ==> (res matches Err(e) && e.truncated)),
        depth < MAX_NESTING && old(it)@.len() < u32::MAX ==> (sugar_name(old(r).chars@, old(r).pos as int) matches Some(
            n,
        ) ==> (res matches Ok(f) ==> headed_by(f.root, final(it)@, n))),
        depth < MAX_NESTING ==> (sugar_name(old(r).chars@, old(r).pos as int) matches Some(n) ==> (forall|v: Value|
            #[trigger] printed_at(
                old(r).chars@,
                old(r).pos + sugar_width(old(r).chars@, old(r).pos as int),
                v,
                with_name(old(it)@, n),
                depth + 1,
            ) ==> (res matches Ok(f) && wraps(f.root, v)))),
        depth < MAX_NESTING && opens_string(old(r).chars@, old(r).pos as int) ==> (scan_string(old(r).chars@, old(r).pos + 1) matches StrScan::Closed {
            text,
            end,
        } ==> (res matches Ok(f) && f.root matches Value::Str(x) && x.0@ == text && final(r).pos == end)),
    decreases MAX_NESTING - depth, 1nat,
{
    let ghost cs = r.chars@;
    let ghost names = it@;
    let ghost p0 = r.pos as int;
    proof {
        assert forall|v: Value| #[trigger] printed_at(cs, p0, v, names, depth as int) implies p0 < cs.len() && cs[p0]
            == print_spec(v, names)[0] && !is_ws(cs[p0]) && cs[p0] != ';' by {
            lemma_print_shape(v, names, depth as int);
            assert(cs.subrange(p0, p0 + print_spec(v, names).len())[0] == cs[p0]);
        }
    }
    if depth >= MAX_NESTING {
        r.skip_ws();
        return Err(r.err_here(copy_str("nested more than 256 deep")));
    }
    r.skip_ws();
    let start = r.byte;
    match r.peek() {
        None => Err(r.err_here(copy_str("unexpected end of input")).truncated()),
        Some(c) => {
            proof {
                assert forall|v: Value| #[trigger] printed_at(cs, p0, v, names, depth as int) implies r.pos == p0 && c
                    == print_spec(v, names)[0] by {}
            }
            if c == '(' {
                proof {
                    assert forall|v: Value| #[trigger] printed_at(cs, p0, v, names, depth as int) implies printed_at(
                        cs,
                        p0,
                        v,
                        names,
                        (depth + 1) - 1,
                    ) && seq_kind(v, true) by {
                        lemma_print_shape(v, names, depth as int);
                    }
                }
                read_seq(r, it, p, depth + 1, ')', true)
            } else if c == '[' {
                proof {
                    assert forall|v: Value| #[trigger] printed_at(cs, p0, v, names, depth as int) implies printed_at(
                        cs,
                        p0,
                        v,
                        names,
                        (depth + 1) - 1,
                    ) && seq_kind(v, false) by {
                        lemma_print_shape(v, names, depth as int);
                    }
                }
                read_seq(r, it, p, depth + 1, ']', false)
            } else if c == '{' {
                proof {
                    assert forall|v: Value| #[trigger] printed_at(cs, p0, v, names, depth as int) implies printed_at(
                        cs,
                        p0,
                        v,
                        names,
                        (depth + 1) - 1,
                    ) && v is Dict by {
                        lemma_print_shape(v, names, depth as int);
                    }
                }
                read_map(r, it, p, depth + 1)
            } else if c == ')' || c == ']' || c == '}' {
                proof {
                    assert forall|v: Value| #[trigger] printed_at(cs, p0, v, names, depth as int) implies false by {
                        lemma_print_shape(v, names, depth as int);
                    }
                }
                r.advance();
                let mut msg = copy_str("unmatched `");
                push_char(&mut msg, c);
                push_char(&mut msg, '`');
                Err(LispErr::at(span_between(r, start), msg))
            } else if c == '"' {
                proof {
                    assert forall|v: Value| #[trigger] printed_at(cs, p0, v, names, depth as int) implies v is Str
                        && string_at(cs, p0, v->Str_0.0@) by {
                        lemma_print_shape(v, names, depth as int);
                    }
                }
                read_string(r)
            } else if c == '\'' || c == '`' || c == '~' {
                proof {
                    assert forall|v: Value| #[trigger] printed_at(cs, p0, v, names, depth as int) implies false by {
                        lemma_print_shape(v, names, depth as int);
                    }
                }
                if c == '\'' {
                    read_prefixed(r, it, p, depth + 1, "quote", 1)
                } else if c == '`' {
                    read_prefixed(r, it, p, depth + 1, "quasiquote", 1)
                } else if r.chars.len() - r.pos > 1 && r.chars[r.pos + 1] == '@' {
                    read_prefixed(r, it, p, depth + 1, "unquote-splicing", 2)
                } else {
                    read_prefixed(r, it, p, depth + 1, "unquote", 1)
                }
            } else if c == ':' {
                proof {
                    assert forall|v: Value| #[trigger] printed_at(cs, p0, v, names, depth as int) implies v is Keyword by {
                        lemma_print_shape(v, names, depth as int);
                    }
                }
                read_keyword(r, it)
            } else {
                proof {
                    assert forall|v: Value| #[trigger] printed_at(cs, p0, v, names, depth as int) implies atom_value(v) by {
                        lemma_print_shape(v, names, depth as int);
                    }
                }
                read_atom(r, it, p)
            }
        },
    }
}

/// The table after interning `name`: as it was if `name` is there.
pub open spec fn with_name(names: Seq<Seq<char>>, name: Seq<char>) -> Seq<Seq<char>> {
    if last_index_of(names, name) is Some {
        names
    } else {
        names.push(name)
    }
}

/// `'x` reads as `(quote x)`, and the other three sugars the same way. The
/// head symbol takes the span of the punctuation that produced it.
fn read_prefixed<P: Platform>(
    r: &mut Reader,
    it: &mut Interner,
    p: &P,
    depth: usize,
    name: &str,
    len: usize,
) -> (res: Result<LocatedForm, LispErr>)
    requires
        old(r).wf(),
        1 <= depth <= MAX_NESTING,
        1 <= len <= 2,
        old(r).pos + len <= old(r).chars@.len(),
        forall|k: int| 0 <= k < len ==> #[trigger] char_width(old(r).chars@[old(r).pos + k]) == 1,
    ensures
        old(r).step(*final(r)),
        grows(old(it)@, final(it)@),
        res matches Ok(f) ==> final(r).pos > old(r).pos && sourced(f),
        res matches Ok(f) ==> f.root matches Value::List(l) && l@.len() == 2 && l@[0] is Sym,
        res matches Ok(f) ==> old(it)@.len() < u32::MAX ==> (f.root matches Value::List(l) && (l@[0] matches Value::Sym(
            h,
        ) && (h.0 as int) < final(it)@.len() && final(it)@[h.0 as int] == name@)),
        forall|v: Value|
            #[trigger] printed_at(
                old(r).chars@,
                old(r).pos + len,
                v,
                with_name(old(it)@, name@),
                depth as int,
            ) ==> (res matches Ok(f) && f.root matches Value::List(l) && l@.len() == 2 && same_read(l@[1], v)),
    decreases MAX_NESTING - depth, 2nat,
{
    let start = r.byte;
    r.advance();
    if len == 2 {
        r.advance();
    }
    let head_end = r.byte;
    proof {
        lemma_byte_offset_step(r.chars@, old(r).pos as int);
        if len == 2 {
            lemma_byte_offset_step(r.chars@, old(r).pos + 1);
        }
    }
    let ghost before = it@;
    let head = it.sym(name);
    proof {
        if before.len() < u32::MAX {
            crate::value::lemma_intern_names(before, name@, head->Sym_0.0, it@);
        }
    }
    let ghost named = it@;
    let inner = read_form(r, it, p, depth);
    match inner {
        Err(e) => Err(e),
        Ok(inner) => {
            let mut items: Vec<Value> = Vec::new();
            items.push(head);
            items.push(inner.root);
            let mut children: Vec<Origins> = Vec::new();
            children.push(Origins::leaf(SpanOrigin::Source(Span::new(start, head_end))));
            children.push(inner.origins);
            Ok(
                LocatedForm {
                    root: Value::List(Rc::new(items)),
                    origins: Origins {
                        origin: SpanOrigin::Source(span_between(r, start)),
                        children,
                    },
                },
            )
        },
    }
}

/// The kind of collection `read_seq` is reading.
pub open spec fn seq_kind(v: Value, is_list: bool) -> bool {
    if is_list {
        v is List
    } else {
        v is Vec
    }
}

/// The items of a list or vector, up to the closing delimiter.
fn read_seq<P: Platform>(
    r: &mut Reader,
    it: &mut Interner,
    p: &P,
    depth: usize,
    close: char,
    is_list: bool,
) -> (res: Result<LocatedForm, LispErr>)
    requires
        old(r).wf(),
        1 <= depth <= MAX_NESTING,
        old(r).pos < old(r).chars@.len(),
        char_width(old(r).chars@[old(r).pos as int]) == 1,
        close == (if is_list {
            ')'
        } else {
            ']'
        }),
    ensures
        old(r).step(*final(r)),
        grows(old(it)@, final(it)@),
        res matches Ok(f) ==> final(r).pos > old(r).pos && sourced(f),
        forall|v: Value|
            #[trigger] printed_at(old(r).chars@, old(r).pos as int, v, old(it)@, depth - 1) && seq_kind(v, is_list)
                ==> (res matches Ok(f) && same_read(f.root, v) && final(r).pos == old(r).pos + print_spec(
                v,
                old(it)@,
            ).len() && final(it)@ == old(it)@),
    decreases MAX_NESTING - depth, 2nat,
{
    let ghost cs = r.chars@;
    let ghost names = it@;
    let ghost p0 = r.pos as int;
    let start = r.byte;
    let opener = r.chars[r.pos];
    r.advance();
    proof {
        lemma_byte_offset_step(r.chars@, old(r).pos as int);
        assert forall|v: Value| #[trigger] printed_at(cs, p0, v, names, depth - 1) && seq_kind(v, is_list) implies r.pos
            == p0 + 1 + join(items_of(v).take(0), names).len() by {
            assert(items_of(v).take(0) =~= Seq::<Value>::empty());
        }
    }
    let after = r.byte;
    let mut items: Vec<Value> = Vec::new();
    let mut origins: Vec<Origins> = Vec::new();
    loop
        invariant
            old(r).step(*r),
            r.pos > old(r).pos,
            start == old(r).byte,
            grows(old(it)@, it@),
            1 <= depth <= MAX_NESTING,
            cs == r.chars@,
            names == old(it)@,
            p0 == old(r).pos,
            close == (if is_list {
                ')'
            } else {
                ']'
            }),
            forall|v: Value|
                #[trigger] printed_at(cs, p0, v, names, depth - 1) && seq_kind(v, is_list) ==> items@.len()
                    <= items_of(v).len() && (forall|j: int|
                    0 <= j < items@.len() ==> same_read(items@[j], #[trigger] items_of(v)[j])) && r.pos == p0 + 1
                    + join(items_of(v).take(items@.len() as int), names).len() && it@ == names,
        decreases r.chars@.len() - r.pos,
    {
        let ghost k = items@.len() as int;
        let ghost q = r.pos as int;
        proof {
            assert forall|v: Value| #[trigger] printed_at(cs, p0, v, names, depth - 1) && seq_kind(v, is_list) implies ({
                let xs = items_of(v);
                &&& (k < xs.len() ==> {
                    let off = q + (if k == 0 { 0int } else { 1int });
                    &&& printed_at(cs, off, xs[k], names, depth as int)
                    &&& (k == 0 ==> !is_ws(cs[q]) && cs[q] != ';')
                    &&& (k > 0 ==> cs[q] == ' ' && q + 1 < cs.len() && !is_ws(cs[q + 1]) && cs[q + 1] != ';')
                })
                &&& (k == xs.len() ==> q < cs.len() && cs[q] == close && q + 1 == p0 + print_spec(v, names).len())
            }) by {
                lemma_seq_layout(cs, p0, v, names, depth - 1, k);
                let xs = items_of(v);
                if k < xs.len() {
                    let off = q + (if k == 0 { 0int } else { 1int });
                    lemma_print_shape(xs[k], names, depth as int);
                    assert(cs[off] == print_spec(xs[k], names)[0]) by {
                        assert(cs.subrange(off, off + print_spec(xs[k], names).len())[0] == cs[off]);
                    }
                }
            }
        }
        r.skip_ws();
        let ghost q2 = r.pos as int;
        match r.peek() {
            None => {
                proof {
                    assert forall|v: Value| #[trigger] printed_at(cs, p0, v, names, depth - 1) && seq_kind(v, is_list) implies false by {
                        lemma_seq_layout(cs, p0, v, names, depth - 1, k);
                    }
                }
                let mut msg = copy_str("unclosed `");
                push_char(&mut msg, opener);
                push_char(&mut msg, '`');
                return Err(LispErr::at(Span::new(start, after), msg).truncated());
            },
            Some(c) => {
                if c == close {
                    r.advance();
                    let ghost its = items@;
                    let root = if is_list {
                        Value::List(Rc::new(items))
                    } else {
                        Value::Vec(Rc::new(items))
                    };
                    proof {
                        assert forall|v: Value| #[trigger] printed_at(cs, p0, v, names, depth - 1) && seq_kind(v, is_list) implies same_read(
                            root,
                            v,
                        ) && r.pos == p0 + print_spec(v, names).len() by {
                            let xs = items_of(v);
                            if k < xs.len() {
                                lemma_print_shape(xs[k], names, depth as int);
                                let off = q + (if k == 0 { 0int } else { 1int });
                                assert(cs.subrange(off, off + print_spec(xs[k], names).len())[0] == cs[off]);
                            }
                        }
                    }
                    return Ok(
                        LocatedForm {
                            root,
                            origins: Origins {
                                origin: SpanOrigin::Source(span_between(r, start)),
                                children: origins,
                            },
                        },
                    );
                }
                match read_form(r, it, p, depth) {
                    Ok(f) => {
                        proof {
                            assert forall|v: Value| #[trigger] printed_at(cs, p0, v, names, depth - 1) && seq_kind(v, is_list) implies same_read(
                                f.root,
                                items_of(v)[k],
                            ) && k < items_of(v).len() && r.pos == p0 + 1 + join(items_of(v).take(k + 1), names).len()
                                && it@ == names by {
                                let xs = items_of(v);
                                lemma_seq_layout(cs, p0, v, names, depth - 1, k);
                                if k == xs.len() {
                                    assert(false);
                                }
                                let off = q + (if k == 0 { 0int } else { 1int });
                                assert(q2 == off);
                                assert(printed_at(cs, q2, xs[k], names, depth as int));
                            }
                        }
                        items.push(f.root);
                        origins.push(f.origins);
                    },
                    Err(e) => {
                        proof {
                            assert forall|v: Value| #[trigger] printed_at(cs, p0, v, names, depth - 1) && seq_kind(v, is_list) implies false by {
                                let xs = items_of(v);
                                lemma_seq_layout(cs, p0, v, names, depth - 1, k);
                                if k < xs.len() {
                                    let off = q + (if k == 0 { 0int } else { 1int });
                                    assert(q2 == off);
                                    assert(printed_at(cs, q2, xs[k], names, depth as int));
                                }
                            }
                        }
                        return Err(e);
                    },
                }
            },
        }
    }
}

/// A map literal. Last write wins, so a map never holds two equal keys; the
/// surviving key is the first occurrence, and only the value and its origin
/// are replaced.
fn read_map<P: Platform>(r: &mut Reader, it: &mut Interner, p: &P, depth: usize) -> (res: Result<
    LocatedForm,
    LispErr,
>)
    requires
        old(r).wf(),
        1 <= depth <= MAX_NESTING,
        old(r).pos < old(r).chars@.len(),
        char_width(old(r).chars@[old(r).pos as int]) == 1,
    ensures
        old(r).step(*final(r)),
        grows(old(it)@, final(it)@),
        res matches Ok(f) ==> final(r).pos > old(r).pos && sourced(f),
        forall|v: Value|
            #[trigger] printed_at(old(r).chars@, old(r).pos as int, v, old(it)@, depth - 1) && v is Dict ==> (res matches Ok(
                f,
            ) && same_read(f.root, v) && final(r).pos == old(r).pos + print_spec(v, old(it)@).len()
                && final(it)@ == old(it)@),
    decreases MAX_NESTING - depth, 2nat,
{
    let ghost cs = r.chars@;
    let ghost names = it@;
    let ghost p0 = r.pos as int;
    let start = r.byte;
    r.advance();
    proof {
        lemma_byte_offset_step(r.chars@, old(r).pos as int);
        assert forall|v: Value| #[trigger] printed_at(cs, p0, v, names, depth - 1) && v is Dict implies r.pos == p0 + 1
            + join_pairs(v->Dict_0@.take(0), names).len() by {
            assert(v->Dict_0@.take(0) =~= Seq::<(Value, Value)>::empty());
        }
    }
    let after = r.byte;
    let mut pairs: Vec<(Value, Value)> = Vec::new();
    let mut origins: Vec<Origins> = Vec::new();
    loop
        invariant
            old(r).step(*r),
            r.pos > old(r).pos,
            start == old(r).byte,
            grows(old(it)@, it@),
            1 <= depth <= MAX_NESTING,
            origins@.len() == 2 * pairs@.len(),
            cs == r.chars@,
            names == old(it)@,
            p0 == old(r).pos,
            forall|v: Value|
                #[trigger] printed_at(cs, p0, v, names, depth - 1) && v is Dict ==> pairs@.len() <= v->Dict_0@.len()
                    && (forall|j: int|
                    0 <= j < pairs@.len() ==> same_read(pairs@[j].0, (#[trigger] v->Dict_0@[j]).0) && same_read(
                        pairs@[j].1,
                        v->Dict_0@[j].1,
                    )) && r.pos == p0 + 1 + join_pairs(v->Dict_0@.take(pairs@.len() as int), names).len() && it@
                    == names,
        decreases r.chars@.len() - r.pos,
    {
        let ghost k = pairs@.len() as int;
        let ghost q = r.pos as int;
        proof {
            assert forall|v: Value| #[trigger] printed_at(cs, p0, v, names, depth - 1) && v is Dict implies ({
                let xs = v->Dict_0@;
                &&& (k < xs.len() ==> {
                    let off = q + (if k == 0 { 0int } else { 1int });
                    &&& printed_at(cs, off, xs[k].0, names, depth as int)
                    &&& (k == 0 ==> !is_ws(cs[q]) && cs[q] != ';' && cs[q] != '}')
                    &&& (k > 0 ==> cs[q] == ' ' && q + 1 < cs.len() && !is_ws(cs[q + 1]) && cs[q + 1] != ';' && cs[q
                        + 1] != '}')
                })
                &&& (k == xs.len() ==> q < cs.len() && cs[q] == '}' && q + 1 == p0 + print_spec(v, names).len())
            }) by {
                lemma_map_layout(cs, p0, v, names, depth - 1, k);
                let xs = v->Dict_0@;
                if k < xs.len() {
                    let off = q + (if k == 0 { 0int } else { 1int });
                    lemma_print_shape(xs[k].0, names, depth as int);
                    assert(cs.subrange(off, off + print_spec(xs[k].0, names).len())[0] == cs[off]);
                }
            }
        }
        r.skip_ws();
        let ghost q2 = r.pos as int;
        match r.peek() {
            None => {
                proof {
                    assert forall|v: Value| #[trigger] printed_at(cs, p0, v, names, depth - 1) && v is Dict implies false by {
                        lemma_map_layout(cs, p0, v, names, depth - 1, k);
                    }
                }
                return Err(LispErr::at(Span::new(start, after), copy_str("unclosed `{`")).truncated());
            },
            Some(c) => {
                if c == '}' {
                    r.advance();
                    let root = Value::Dict(Rc::new(pairs));
                    proof {
                        assert forall|v: Value| #[trigger] printed_at(cs, p0, v, names, depth - 1) && v is Dict implies same_read(
                            root,
                            v,
                        ) && r.pos == p0 + print_spec(v, names).len() by {}
                    }
                    return Ok(
                        LocatedForm {
                            root,
                            origins: Origins {
                                origin: SpanOrigin::Source(span_between(r, start)),
                                children: origins,
                            },
                        },
                    );
                }
                let k_form = match read_form(r, it, p, depth) {
                    Ok(k) => k,
                    Err(e) => {
                        proof {
                            assert forall|v: Value| #[trigger] printed_at(cs, p0, v, names, depth - 1) && v is Dict implies false by {
                                lemma_map_layout(cs, p0, v, names, depth - 1, k);
                                let xs = v->Dict_0@;
                                if k < xs.len() {
                                    let off = q + (if k == 0 { 0int } else { 1int });
                                    assert(q2 == off);
                                    assert(printed_at(cs, q2, xs[k].0, names, depth as int));
                                }
                            }
                        }
                        return Err(e);
                    },
                };
                let ghost q3 = r.pos as int;
                proof {
                    assert forall|v: Value| #[trigger] printed_at(cs, p0, v, names, depth - 1) && v is Dict implies ({
                        let xs = v->Dict_0@;
                        &&& k < xs.len()
                        &&& same_read(k_form.root, xs[k].0)
                        &&& it@ == names
                        &&& q3 + 1 < cs.len() && cs[q3] == ' ' && !is_ws(cs[q3 + 1]) && cs[q3 + 1] != ';' && cs[q3 + 1]
                            != '}'
                        &&& printed_at(cs, q3 + 1, xs[k].1, names, depth as int)
                        &&& q3 + 1 + print_spec(xs[k].1, names).len() == p0 + 1 + join_pairs(xs.take(k + 1), names).len()
                    }) by {
                        let xs = v->Dict_0@;
                        lemma_map_layout(cs, p0, v, names, depth - 1, k);
                        if k == xs.len() {
                            assert(false);
                        }
                        let off = q + (if k == 0 { 0int } else { 1int });
                        assert(q2 == off);
                        assert(printed_at(cs, q2, xs[k].0, names, depth as int));
                        let voff = off + print_spec(xs[k].0, names).len() + 1;
                        lemma_print_shape(xs[k].1, names, depth as int);
                        assert(cs.subrange(voff, voff + print_spec(xs[k].1, names).len())[0] == cs[voff]);
                    }
                }
                r.skip_ws();
                match r.peek() {
                    None => {
                        return Err(
                            LispErr::at(Span::new(start, after), copy_str("unclosed `{`")).truncated(),
                        );
                    },
                    Some(c2) => {
                        if c2 == '}' {
                            let at = match k_form.origins.origin.span() {
                                Some(s) => s,
                                None => Span::new(start, after),
                            };
                            return Err(
                                LispErr::at(at, copy_str("map literal has a key with no value")),
                            );
                        }
                    },
                }
                let v_form = match read_form(r, it, p, depth) {
                    Ok(v) => v,
                    Err(e) => {
                        return Err(e);
                    },
                };
                let ghost before = pairs@;
                match find_key_index(&k_form.root, &pairs) {
                    Some(i) => {
                        proof {
                            lemma_find_key_range(k_form.root, pairs@);
                            assert forall|v: Value| #[trigger] printed_at(cs, p0, v, names, depth - 1) && v is Dict implies false by {
                                let xs = v->Dict_0@;
                                assert(same_read(pairs@[i as int].0, xs[i as int].0));
                                assert(atom_key(xs[i as int].0) && atom_key(xs[k].0));
                                lemma_atom_lang_eq(k_form.root, xs[k].0, pairs@[i as int].0, xs[i as int].0);
                            }
                        }
                        let olen = origins.len();
                        assert(2 * i + 1 < olen);
                        let key = pairs[i].0.clone();
                        pairs[i] = (key, v_form.root);
                        origins[2 * i + 1] = v_form.origins;
                    },
                    None => {
                        pairs.push((k_form.root, v_form.root));
                        origins.push(k_form.origins);
                        origins.push(v_form.origins);
                        proof {
                            assert forall|v: Value| #[trigger] printed_at(cs, p0, v, names, depth - 1) && v is Dict implies pairs@.len()
                                <= v->Dict_0@.len() && (forall|j: int|
                                0 <= j < pairs@.len() ==> same_read(pairs@[j].0, (#[trigger] v->Dict_0@[j]).0)
                                    && same_read(pairs@[j].1, v->Dict_0@[j].1)) && r.pos == p0 + 1 + join_pairs(
                                v->Dict_0@.take(pairs@.len() as int),
                                names,
                            ).len() && it@ == names by {
                                let xs = v->Dict_0@;
                                assert(printed_at(cs, q3 + 1, xs[k].1, names, depth as int));
                                assert forall|j: int| 0 <= j < pairs@.len() implies same_read(
                                    pairs@[j].0,
                                    (#[trigger] xs[j]).0,
                                ) && same_read(pairs@[j].1, xs[j].1) by {
                                    if j < k {
                                        assert(pairs@[j] == before[j]);
                                    }
                                }
                            }
                        }
                    },
                }
            },
        }
    }
}

/// `cs` holds, at `p`, the literal that reads as the text `t`.
/// A string literal opens at `p`.
pub open spec fn opens_string(cs: Seq<char>, p: int) -> bool {
    0 <= p < cs.len() && cs[p] == '"'
}

/// How a string literal's body scans from a position: closed, with its
/// text and the position after the closing quote, or how it fails.
pub enum StrScan {
    Closed { text: Seq<char>, end: int },
    /// The input ends inside the literal.
    Unclosed,
    /// The input ends right after a backslash.
    UnfinishedEscape,
    /// A backslash before a character that names no escape.
    UnknownEscape,
}

/// The character an escape letter stands for.
pub open spec fn unescape(e: char) -> Option<char> {
    if e == 'n' {
        Some('\n')
    } else if e == 't' {
        Some('\t')
    } else if e == 'r' {
        Some('\r')
    } else if e == '\\' {
        Some('\\')
    } else if e == '"' {
        Some('"')
    } else {
        None
    }
}

/// `c` before the text of a closed scan.
pub open spec fn scan_after(c: Seq<char>, r: StrScan) -> StrScan {
    match r {
        StrScan::Closed { text, end } => StrScan::Closed { text: c + text, end },
        other => other,
    }
}

/// The body of a string literal from `q`, up to and including its closing
/// quote: any character but a quote or a backslash stands for itself, raw
/// line breaks included, and a backslash takes one escape letter.
pub open spec fn scan_string(cs: Seq<char>, q: int) -> StrScan
    decreases cs.len() - q,
{
    if q < 0 || q >= cs.len() {
        StrScan::Unclosed
    } else if cs[q] == '"' {
        StrScan::Closed { text: Seq::empty(), end: q + 1 }
    } else if cs[q] == '\\' {
        if q + 1 >= cs.len() {
            StrScan::UnfinishedEscape
        } else {
            match unescape(cs[q + 1]) {
                Some(c) => scan_after(seq![c], scan_string(cs, q + 2)),
                None => StrScan::UnknownEscape,
            }
        }
    } else {
        scan_after(seq![cs[q]], scan_string(cs, q + 1))
    }
}

proof fn lemma_scan_after_twice(a: Seq<char>, c: char, r: StrScan)
    ensures
        scan_after(a, scan_after(seq![c], r)) == scan_after(a.push(c), r),
{
    match r {
        StrScan::Closed { text, end } => {
            assert(a + (seq![c] + text) =~= a.push(c) + text);
        },
        _ => {},
    }
}

pub open spec fn string_at(cs: Seq<char>, p: int, t: Seq<char>) -> bool {
    &&& 0 <= p
    &&& p + string_literal(t).len() <= cs.len()
    &&& cs.subrange(p, p + string_literal(t).len()) == string_literal(t)
}

/// Where the reader stands after `k` characters of a literal's text, and
/// what it finds there.
proof fn lemma_string_at(cs: Seq<char>, p: int, t: Seq<char>, k: int)
    requires
        string_at(cs, p, t),
        0 <= k <= t.len(),
    ensures
        ({
            let q = p + 1 + escape(t.take(k)).len();
            &&& k == t.len() ==> q < cs.len() && cs[q] == '"' && q + 1 == p + string_literal(t).len()
            &&& k < t.len() ==> q + escape_char(t[k]).len() < p + string_literal(t).len() && forall|j: int|
                0 <= j < escape_char(t[k]).len() ==> cs[q + j] == #[trigger] escape_char(t[k])[j]
        }),
{
    let lit = string_literal(t);
    let a = escape(t.take(k));
    assert(t =~= t.take(k) + t.skip(k));
    lemma_escape_append(t.take(k), t.skip(k));
    let rest = escape(t.skip(k));
    assert(lit =~= seq!['"'] + a + rest + seq!['"']);
    let q = p + 1 + a.len();
    if k == t.len() {
        assert(cs[q] == lit[q - p]);
    } else {
        assert(t.skip(k) =~= seq![t[k]] + t.skip(k + 1));
        lemma_escape_append(seq![t[k]], t.skip(k + 1));
        assert(escape(seq![t[k]]) =~= escape_char(t[k])) by {
            let one = seq![t[k]];
            assert(one.drop_last() =~= Seq::<char>::empty());
            assert(one.last() == t[k]);
            assert(escape(Seq::<char>::empty()) =~= Seq::<char>::empty());
            assert(escape(one) == escape(one.drop_last()) + escape_char(one.last()));
        }
        assert forall|j: int| 0 <= j < escape_char(t[k]).len() implies cs[q + j] == #[trigger] escape_char(t[k])[j] by {
            assert(cs[q + j] == lit[q + j - p]);
            assert(lit[q + j - p] == rest[j]);
        }
    }
}

/// A string literal, with its five escapes.
fn read_string(r: &mut Reader) -> (res: Result<LocatedForm, LispErr>)
    requires
        old(r).wf(),
        old(r).pos < old(r).chars@.len(),
        char_width(old(r).chars@[old(r).pos as int]) == 1,
    ensures
        old(r).step(*final(r)),
        res matches Ok(f) ==> final(r).pos > old(r).pos && sourced(f),
        forall|t: Seq<char>|
            #[trigger] string_at(old(r).chars@, old(r).pos as int, t) ==> (res matches Ok(f) && f.root matches Value::Str(
                x,
            ) && x.0@ == t && final(r).pos == old(r).pos + string_literal(t).len()),
        scan_string(old(r).chars@, old(r).pos + 1) matches StrScan::Closed { text, end } ==> (res matches Ok(f)
            && f.root matches Value::Str(x) && x.0@ == text && final(r).pos == end),
        scan_string(old(r).chars@, old(r).pos + 1) is Unclosed ==> (res matches Err(e) && e.truncated),
        scan_string(old(r).chars@, old(r).pos + 1) is UnfinishedEscape ==> (res matches Err(e) && !e.truncated),
        scan_string(old(r).chars@, old(r).pos + 1) is UnknownEscape ==> (res matches Err(e) && !e.truncated),
{
    let ghost cs = r.chars@;
    let ghost p0 = r.pos as int;
    let start = r.byte;
    r.advance();
    proof {
        lemma_byte_offset_step(r.chars@, old(r).pos as int);
        assert forall|t: Seq<char>| #[trigger] string_at(cs, p0, t) implies r.pos == p0 + 1 + escape(
            t.take(0),
        ).len() by {
            assert(t.take(0) =~= Seq::<char>::empty());
        }
        match scan_string(cs, p0 + 1) {
            StrScan::Closed { text, end } => {
                assert(Seq::<char>::empty() + text =~= text);
            },
            _ => {},
        }
    }
    let after = r.byte;
    let mut s = String::new();
    loop
        invariant
            old(r).step(*r),
            r.pos > old(r).pos,
            start == old(r).byte,
            cs == r.chars@,
            p0 == old(r).pos,
            forall|t: Seq<char>|
                #[trigger] string_at(cs, p0, t) ==> s@.len() <= t.len() && s@ == t.take(s@.len() as int)
                    && r.pos == p0 + 1 + escape(t.take(s@.len() as int)).len(),
            scan_string(cs, p0 + 1) == scan_after(s@, scan_string(cs, r.pos as int)),
        decreases r.chars@.len() - r.pos,
    {
        let ghost k = s@.len() as int;
        let ghost q = r.pos as int;
        match r.peek() {
            None => {
                proof {
                    assert forall|t: Seq<char>| #[trigger] string_at(cs, p0, t) implies false by {
                        lemma_string_at(cs, p0, t, k);
                    }
                }
                return Err(
                    LispErr::at(Span::new(start, after), copy_str("unclosed string literal")).truncated(),
                );
            },
            Some(c) => {
                if c == '"' {
                    r.advance();
                    proof {
                        assert forall|t: Seq<char>| #[trigger] string_at(cs, p0, t) implies s@ == t && r.pos == p0
                            + string_literal(t).len() by {
                            lemma_string_at(cs, p0, t, k);
                            if k < t.len() {
                                assert(escape_char(t[k])[0] == cs[q]);
                            }
                            assert(t.take(k) =~= t);
                        }
                    }
                    return Ok(located(Value::Str(Rc::new(StrObj(s))), span_between(r, start)));
                } else if c == '\\' {
                    let esc_start = r.byte;
                    r.advance();
                    match r.peek() {
                        None => {
                            proof {
                                assert forall|t: Seq<char>| #[trigger] string_at(cs, p0, t) implies false by {
                                    lemma_string_at(cs, p0, t, k);
                                    if k < t.len() {
                                        assert(escape_char(t[k])[0] == cs[q]);
                                    }
                                }
                            }
                            return Err(r.err_here(copy_str("unfinished escape sequence")));
                        },
                        Some(e) => {
                            r.advance();
                            let ghost before = s@;
                            let ghost q2 = r.pos as int;
                            if e == 'n' {
                                push_char(&mut s, '\n');
                            } else if e == 't' {
                                push_char(&mut s, '\t');
                            } else if e == 'r' {
                                push_char(&mut s, '\r');
                            } else if e == '\\' {
                                push_char(&mut s, '\\');
                            } else if e == '"' {
                                push_char(&mut s, '"');
                            } else {
                                proof {
                                    assert forall|t: Seq<char>| #[trigger] string_at(cs, p0, t) implies false by {
                                        lemma_string_at(cs, p0, t, k);
                                        if k < t.len() {
                                            assert(escape_char(t[k])[0] == cs[q]);
                                            assert(escape_char(t[k])[1] == cs[q + 1]);
                                        }
                                    }
                                }
                                let mut msg = copy_str("unknown escape `\\");
                                push_char(&mut msg, e);
                                push_char(&mut msg, '`');
                                proof {
                                    lemma_byte_offset_mono(r.chars@, old(r).pos as int, r.pos as int);
                                }
                                return Err(LispErr::at(span_between(r, esc_start), msg));
                            }
                            proof {
                                lemma_scan_after_twice(before, s@.last(), scan_string(cs, q2));
                                assert(before.push(s@.last()) =~= s@);
                            }
                            proof {
                                assert forall|t: Seq<char>| #[trigger] string_at(cs, p0, t) implies s@.len() <= t.len()
                                    && s@ == t.take(s@.len() as int) && r.pos == p0 + 1 + escape(
                                    t.take(s@.len() as int),
                                ).len() by {
                                    lemma_string_at(cs, p0, t, k);
                                    if k == t.len() {
                                        assert(cs[q] == '"');
                                    } else {
                                        assert(escape_char(t[k])[0] == cs[q]);
                                        assert(escape_char(t[k])[1] == cs[q + 1]);
                                        lemma_escape_step(t, k);
                                        assert(t.take(k + 1) =~= t.take(k).push(t[k]));
                                    }
                                }
                            }
                        },
                    }
                } else {
                    let ghost before = s@;
                    push_char(&mut s, c);
                    r.advance();
                    proof {
                        lemma_scan_after_twice(before, c, scan_string(cs, r.pos as int));
                        assert(before.push(c) =~= s@);
                    }
                    proof {
                        assert forall|t: Seq<char>| #[trigger] string_at(cs, p0, t) implies s@.len() <= t.len() && s@
                            == t.take(s@.len() as int) && r.pos == p0 + 1 + escape(t.take(s@.len() as int)).len() by {
                            lemma_string_at(cs, p0, t, k);
                            if k == t.len() {
                                assert(cs[q] == '"');
                            } else {
                                assert(escape_char(t[k])[0] == cs[q]);
                                lemma_escape_step(t, k);
                                assert(t.take(k + 1) =~= t.take(k).push(t[k]));
                            }
                        }
                    }
                }
            },
        }
    }
}

/// `:name`.
fn read_keyword(r: &mut Reader, it: &mut Interner) -> (res: Result<LocatedForm, LispErr>)
    requires
        old(r).wf(),
        old(r).pos < old(r).chars@.len(),
    ensures
        old(r).step(*final(r)),
        grows(old(it)@, final(it)@),
        res matches Ok(f) ==> final(r).pos > old(r).pos && sourced(f),
        forall|v: Value, d: int|
            #[trigger] printed_at(old(r).chars@, old(r).pos as int, v, old(it)@, d) && v is Keyword ==> (res matches Ok(
                f,
            ) && same_read(f.root, v) && final(r).pos == old(r).pos + print_spec(v, old(it)@).len()
                && final(it)@ == old(it)@),
{
    let ghost cs = r.chars@;
    let ghost names = it@;
    let ghost p0 = r.pos as int;
    let start = r.byte;
    r.advance();
    proof {
        lemma_byte_offset_mono(r.chars@, old(r).pos as int, r.pos as int);
    }
    let text_start = r.pos;
    r.scan_token();
    proof {
        lemma_byte_offset_mono(r.chars@, old(r).pos as int, r.pos as int);
        assert forall|v: Value, d: int| #[trigger] printed_at(cs, p0, v, names, d) && v is Keyword implies r.pos
            == p0 + print_spec(v, names).len() && cs.subrange(p0 + 1, r.pos as int) == names[v->Keyword_0.0 as int] by {
            let t = print_spec(v, names);
            let name = names[v->Keyword_0.0 as int];
            assert(t == seq![':'] + name);
            assert forall|i: int| p0 + 1 <= i < p0 + t.len() implies !is_delim(#[trigger] cs[i]) by {
                assert(cs[i] == t[i - p0]);
                assert(t[i - p0] == name[i - p0 - 1]);
            }
            if r.pos < p0 + t.len() {
                assert(!is_delim(cs[r.pos as int]));
            } else if r.pos > p0 + t.len() {
                assert(!is_delim(cs[p0 + t.len()]));
            }
            assert(cs.subrange(p0 + 1, r.pos as int) =~= name) by {
                assert forall|i: int| 0 <= i < name.len() implies cs.subrange(p0 + 1, r.pos as int)[i] == name[i] by {
                    assert(cs[p0 + 1 + i] == t[1 + i]);
                }
            }
        }
    }
    if r.pos == text_start {
        return Err(LispErr::at(span_between(r, start), copy_str("`:` with no name")));
    }
    let name = string_of_range(r.chars.as_slice(), text_start, r.pos);
    let v = it.keyword(name.as_str());
    Ok(located(v, span_between(r, start)))
}

/// A symbol, a number, `nil`, `true` or `false`.
fn read_atom<P: Platform>(r: &mut Reader, it: &mut Interner, p: &P) -> (res: Result<
    LocatedForm,
    LispErr,
>)
    requires
        old(r).wf(),
        old(r).pos < old(r).chars@.len(),
    ensures
        old(r).step(*final(r)),
        grows(old(it)@, final(it)@),
        res matches Ok(f) ==> final(r).pos > old(r).pos && sourced(f),
        forall|v: Value, d: int|
            #[trigger] printed_at(old(r).chars@, old(r).pos as int, v, old(it)@, d) && atom_value(v) ==> (res matches Ok(
                f,
            ) && same_read(f.root, v) && final(r).pos == old(r).pos + print_spec(v, old(it)@).len()
                && final(it)@ == old(it)@),
{
    let ghost cs = r.chars@;
    let ghost names = it@;
    let ghost p0 = r.pos as int;
    let start = r.byte;
    let start_pos = r.pos;
    r.scan_token();
    proof {
        lemma_byte_offset_mono(r.chars@, old(r).pos as int, r.pos as int);
        assert forall|v: Value, d: int|
            #[trigger] printed_at(cs, p0, v, names, d) && atom_value(v) implies r.pos == p0 + print_spec(
                v,
                names,
            ).len() by {
            let t = print_spec(v, names);
            lemma_print_shape(v, names, d);
            if r.pos < p0 + t.len() {
                assert(cs[r.pos as int] == t[r.pos - p0]);
            } else if r.pos > p0 + t.len() {
                assert(!is_delim(cs[p0 + t.len()]));
            }
        }
    }
    if r.pos == start_pos {
        let c = r.chars[r.pos];
        r.advance();
        proof {
            lemma_byte_offset_mono(r.chars@, old(r).pos as int, r.pos as int);
            assert forall|v: Value, d: int| #[trigger] printed_at(cs, p0, v, names, d) && atom_value(v) implies false by {
                lemma_print_shape(v, names, d);
            }
        }
        let mut msg = copy_str("unexpected `");
        push_char(&mut msg, c);
        push_char(&mut msg, '`');
        return Err(LispErr::at(span_between(r, start), msg));
    }
    let text = string_of_range(r.chars.as_slice(), start_pos, r.pos);
    let span = span_between(r, start);
    let word = text.as_str();
    proof {
        reveal_strlit("nil");
        reveal_strlit("true");
        reveal_strlit("false");
        assert forall|v: Value, d: int| #[trigger] printed_at(cs, p0, v, names, d) && atom_value(v) implies word@
            == print_spec(v, names) by {}
    }
    if crate::text::str_eq(word, "nil") {
        proof {
            assert forall|v: Value, d: int| #[trigger] printed_at(cs, p0, v, names, d) && atom_value(v) implies v
                is Nil by {
                lemma_atom_text(v, names, d);
            }
        }
        Ok(located(Value::Nil, span))
    } else if crate::text::str_eq(word, "true") {
        proof {
            assert forall|v: Value, d: int| #[trigger] printed_at(cs, p0, v, names, d) && atom_value(v) implies v
                == Value::Bool(true) by {
                lemma_atom_text(v, names, d);
            }
        }
        Ok(located(Value::Bool(true), span))
    } else if crate::text::str_eq(word, "false") {
        proof {
            assert forall|v: Value, d: int| #[trigger] printed_at(cs, p0, v, names, d) && atom_value(v) implies v
                == Value::Bool(false) by {
                lemma_atom_text(v, names, d);
            }
        }
        Ok(located(Value::Bool(false), span))
    } else {
        proof {
            assert forall|v: Value, d: int| #[trigger] printed_at(cs, p0, v, names, d) && atom_value(v) implies (v
                is Int || v is Float || v is Sym) by {
                lemma_atom_text(v, names, d);
            }
        }
        match parse_number(word, p) {
            Some(Ok(v)) => {
                proof {
                    assert forall|w: Value, d: int| #[trigger] printed_at(cs, p0, w, names, d) && atom_value(w) implies same_read(
                        v,
                        w,
                    ) by {
                        lemma_atom_text(w, names, d);
                    }
                }
                Ok(located(v, span))
            },
            Some(Err(why)) => {
                proof {
                    assert forall|w: Value, d: int| #[trigger] printed_at(cs, p0, w, names, d) && atom_value(w) implies false by {
                        lemma_atom_text(w, names, d);
                    }
                }
                Err(LispErr::at(span, why))
            },
            None => {
                let v = it.sym(word);
                proof {
                    assert forall|w: Value, d: int| #[trigger] printed_at(cs, p0, w, names, d) && atom_value(w) implies same_read(
                        v,
                        w,
                    ) && it@ == names by {
                        lemma_atom_text(w, names, d);
                    }
                }
                Ok(located(v, span))
            },
        }
    }
}

// --- reading back what the printer wrote --------------------------------------------

/// A symbol's name that reads back as that symbol: not empty, no delimiter
/// in it, not starting like a quote or a keyword, not a number, and none of
/// the three words the reader gives a meaning of their own.
pub open spec fn symbol_token(name: Seq<char>) -> bool {
    &&& name.len() > 0
    &&& forall|i: int| 0 <= i < name.len() ==> !is_delim(#[trigger] name[i])
    &&& name[0] != '\'' && name[0] != ':'
    &&& numeric_spec(name) == Numeric::NotNumber
    &&& name != seq!['n', 'i', 'l']
    &&& name != seq!['t', 'r', 'u', 'e']
    &&& name != seq!['f', 'a', 'l', 's', 'e']
}

/// A keyword's name that reads back as that keyword.
pub open spec fn keyword_token(name: Seq<char>) -> bool {
    &&& name.len() > 0
    &&& forall|i: int| 0 <= i < name.len() ==> !is_delim(#[trigger] name[i])
}

/// `id` is where interning its own name finds it.
pub open spec fn interned_at(names: Seq<Seq<char>>, id: u32) -> bool {
    id < names.len() && last_index_of(names, names[id as int]) == Some(id as int)
}

/// A map key the reader compares without a structure of its own.
pub open spec fn atom_key(v: Value) -> bool {
    v is Nil || v is Bool || v is Int || v is Str || v is Sym || v is Keyword
}

/// A value whose printed text, read at nesting `depth`, reads back as it:
/// no finite float (its digits are the host's), no value with identity,
/// names that read back as themselves, maps keyed by distinct atoms, and
/// nothing nested past the reader's bound.
pub open spec fn readable(v: Value, names: Seq<Seq<char>>, depth: int) -> bool
    decreases v,
{
    depth < MAX_NESTING && match v {
        Value::Nil => true,
        Value::Bool(_) => true,
        Value::Int(_) => true,
        Value::Float(b) => float_is_nan(b) || float_is_infinite(b),
        Value::Str(_) => true,
        Value::Sym(s) => interned_at(names, s.0) && symbol_token(names[s.0 as int]),
        Value::Keyword(k) => interned_at(names, k.0) && keyword_token(names[k.0 as int]),
        Value::List(l) => forall|i: int| 0 <= i < l@.len() ==> readable(#[trigger] l@[i], names, depth + 1),
        Value::Vec(l) => forall|i: int| 0 <= i < l@.len() ==> readable(#[trigger] l@[i], names, depth + 1),
        Value::Dict(m) => (forall|i: int|
            0 <= i < m@.len() ==> atom_key((#[trigger] m@[i]).0) && readable(m@[i].0, names, depth + 1)
                && readable(m@[i].1, names, depth + 1)) && forall|i: int, j: int|
            0 <= i < j < m@.len() ==> !lang_eq(#[trigger] m@[i].0, #[trigger] m@[j].0),
        _ => false,
    }
}

/// `w` is what reading gives back of `v`: the same value, except that any
/// `##NaN` reads back as the one the reader spells.
pub open spec fn same_read(w: Value, v: Value) -> bool
    decreases v,
{
    match (w, v) {
        (Value::Nil, Value::Nil) => true,
        (Value::Bool(a), Value::Bool(b)) => a == b,
        (Value::Int(a), Value::Int(b)) => a == b,
        (Value::Float(a), Value::Float(b)) => a == b || (float_is_nan(a) && float_is_nan(b)),
        (Value::Str(a), Value::Str(b)) => a.0@ == b.0@,
        (Value::Sym(a), Value::Sym(b)) => a == b,
        (Value::Keyword(a), Value::Keyword(b)) => a == b,
        (Value::List(a), Value::List(b)) => a@.len() == b@.len() && forall|i: int|
            0 <= i < b@.len() ==> same_read(a@[i], #[trigger] b@[i]),
        (Value::Vec(a), Value::Vec(b)) => a@.len() == b@.len() && forall|i: int|
            0 <= i < b@.len() ==> same_read(a@[i], #[trigger] b@[i]),
        (Value::Dict(a), Value::Dict(b)) => a@.len() == b@.len() && forall|i: int|
            0 <= i < b@.len() ==> same_read(a@[i].0, (#[trigger] b@[i]).0) && same_read(a@[i].1, b@[i].1),
        _ => false,
    }
}

/// `cs` holds the printed text of `v` at `p`, and what follows it ends a
/// token.
pub open spec fn printed_at(cs: Seq<char>, p: int, v: Value, names: Seq<Seq<char>>, depth: int) -> bool {
    let t = print_spec(v, names);
    &&& readable(v, names, depth)
    &&& 0 <= p
    &&& p + t.len() <= cs.len()
    &&& cs.subrange(p, p + t.len()) == t
    &&& (p + t.len() == cs.len() || is_delim(cs[p + t.len()]))
}

/// The printed text of a value that is neither a collection nor text: one
/// token with no delimiter in it.
pub open spec fn atom_value(v: Value) -> bool {
    v is Nil || v is Bool || v is Int || v is Float || v is Sym
}


/// How the printed text of a readable value starts, which is what the
/// reader dispatches on, and that an atom prints as one token.
pub proof fn lemma_print_shape(v: Value, names: Seq<Seq<char>>, depth: int)
    requires
        readable(v, names, depth),
    ensures
        print_spec(v, names).len() > 0,
        (v is List) == (print_spec(v, names)[0] == '('),
        (v is Vec) == (print_spec(v, names)[0] == '['),
        (v is Dict) == (print_spec(v, names)[0] == '{'),
        (v is Str) == (print_spec(v, names)[0] == '"'),
        (v is Keyword) == (print_spec(v, names)[0] == ':'),
        print_spec(v, names)[0] != ')' && print_spec(v, names)[0] != ']' && print_spec(v, names)[0] != '}',
        print_spec(v, names)[0] != '\'' && print_spec(v, names)[0] != '`' && print_spec(v, names)[0] != '~',
        !is_ws(print_spec(v, names)[0]) && print_spec(v, names)[0] != ';',
        v is List || v is Vec || v is Dict || v is Str || v is Keyword || atom_value(v),
        atom_value(v) ==> forall|i: int|
            0 <= i < print_spec(v, names).len() ==> !is_delim(#[trigger] print_spec(v, names)[i]),
{
    let t = print_spec(v, names);
    match v {
        Value::Int(i) => {
            lemma_int_text_parses(i as int);
            assert forall|k: int| 0 <= k < t.len() implies !is_delim(#[trigger] t[k]) by {
                if i < 0 {
                    crate::text::lemma_nat_digits((-i) as nat);
                    if k > 0 {
                        assert(t[k] == crate::text::nat_digits((-i) as nat)[k - 1]);
                    }
                } else {
                    crate::text::lemma_nat_digits(i as nat);
                }
            }
        },
        Value::Float(b) => {
            assert forall|k: int| 0 <= k < t.len() implies !is_delim(#[trigger] t[k]) by {}
        },
        Value::Sym(x) => {},
        Value::Keyword(x) => {},
        Value::Str(x) => {},
        _ => {},
    }
}


/// What each atom's printed text is to the number grammar and the word
/// checks, which is what decides how it reads.
proof fn lemma_atom_text(v: Value, names: Seq<Seq<char>>, d: int)
    requires
        readable(v, names, d),
        atom_value(v),
    ensures
        ({
            let t = print_spec(v, names);
            &&& (t == "nil"@) == (v is Nil)
            &&& (t == "true"@) == (v == Value::Bool(true))
            &&& (t == "false"@) == (v == Value::Bool(false))
            &&& v matches Value::Int(i) ==> numeric_spec(t) == Numeric::Int(i)
            &&& v matches Value::Float(b) ==> (numeric_spec(t) matches Numeric::NonFinite(c) && (c == b || (
            float_is_nan(c) && float_is_nan(b))))
            &&& v is Sym ==> numeric_spec(t) == Numeric::NotNumber
        }),
{
    reveal_strlit("nil");
    reveal_strlit("true");
    reveal_strlit("false");
    assert("nil"@ =~= seq!['n', 'i', 'l']);
    assert("true"@ =~= seq!['t', 'r', 'u', 'e']);
    assert("false"@ =~= seq!['f', 'a', 'l', 's', 'e']);
    let t = print_spec(v, names);
    match v {
        Value::Int(i) => {
            lemma_int_text_parses(i as int);
            assert("nil"@ =~= seq!['n', 'i', 'l']);
            assert("true"@ =~= seq!['t', 'r', 'u', 'e']);
            assert("false"@ =~= seq!['f', 'a', 'l', 's', 'e']);
            assert(t[0] != 'n' && t[0] != 't' && t[0] != 'f');
            assert(t != "nil"@ && t != "true"@ && t != "false"@) by {
                if t == "nil"@ {
                    assert(t[0] == 'n');
                }
                if t == "true"@ {
                    assert(t[0] == 't');
                }
                if t == "false"@ {
                    assert(t[0] == 'f');
                }
            }
            assert(t != seq!['#', '#', 'I', 'n', 'f'] && t != seq!['#', '#', '-', 'I', 'n', 'f'] && t != seq![
                '#',
                '#',
                'N',
                'a',
                'N',
            ]) by {
                assert(t[0] != '#');
            }
        },
        Value::Float(b) => {
            assert(float_is_nan(NAN_BITS)) by (bit_vector);
            assert(!float_is_nan(b) && float_is_infinite(b) && b != 0x7ff0_0000_0000_0000u64 ==> b
                == 0xfff0_0000_0000_0000u64) by (bit_vector);
            assert(t[0] == '#');
        },
        Value::Sym(s) => {
            assert(t == names[s.0 as int]);
        },
        Value::Bool(b) => {},
        _ => {},
    }
}


/// Joining one more item appends a space, unless it is the first, and the
/// item's text.
proof fn lemma_join_step(xs: Seq<Value>, k: int, names: Seq<Seq<char>>)
    requires
        0 <= k < xs.len(),
    ensures
        join(xs.take(k + 1), names) == join(xs.take(k), names) + (if k == 0 {
            Seq::<char>::empty()
        } else {
            seq![' ']
        }) + print_spec(xs[k], names),
{
    let ys = xs.take(k + 1);
    assert(ys.drop_last() =~= xs.take(k));
    assert(ys.last() == xs[k]);
    if k == 0 {
        assert(ys.len() == 1);
        assert(ys[0] == xs[0]);
        assert(join(xs.take(0), names) =~= Seq::<char>::empty());
        assert(join(ys, names) == print_spec(xs[0], names));
        assert(Seq::<char>::empty() + Seq::<char>::empty() + print_spec(xs[0], names) =~= print_spec(xs[0], names));
    }
}

/// The items joined so far are a prefix of all of them joined.
proof fn lemma_join_prefix(xs: Seq<Value>, m: int, names: Seq<Seq<char>>)
    requires
        0 <= m <= xs.len(),
    ensures
        join(xs.take(m), names).len() <= join(xs, names).len(),
        join(xs, names).subrange(0, join(xs.take(m), names).len() as int) == join(xs.take(m), names),
    decreases xs.len() - m,
{
    if m == xs.len() {
        assert(xs.take(m) =~= xs);
        assert(join(xs, names).subrange(0, join(xs, names).len() as int) =~= join(xs, names));
    } else {
        lemma_join_prefix(xs, m + 1, names);
        lemma_join_step(xs, m, names);
        let a = join(xs.take(m), names);
        let b = join(xs.take(m + 1), names);
        let all = join(xs, names);
        assert(b.subrange(0, a.len() as int) =~= a);
        assert(all.subrange(0, a.len() as int) =~= b.subrange(0, a.len() as int));
    }
}

/// The same two facts for the pairs of a map.
proof fn lemma_join_pairs_step(xs: Seq<(Value, Value)>, k: int, names: Seq<Seq<char>>)
    requires
        0 <= k < xs.len(),
    ensures
        join_pairs(xs.take(k + 1), names) == join_pairs(xs.take(k), names) + (if k == 0 {
            Seq::<char>::empty()
        } else {
            seq![' ']
        }) + print_spec(xs[k].0, names) + seq![' '] + print_spec(xs[k].1, names),
{
    let ys = xs.take(k + 1);
    assert(ys.drop_last() =~= xs.take(k));
    assert(ys.last() == xs[k]);
    if k == 0 {
        assert(ys.len() == 1);
        assert(ys[0] == xs[0]);
        assert(join_pairs(xs.take(0), names) =~= Seq::<char>::empty());
        let t = print_spec(xs[0].0, names) + seq![' '] + print_spec(xs[0].1, names);
        assert(join_pairs(ys, names) == t);
        assert(Seq::<char>::empty() + Seq::<char>::empty() + print_spec(xs[0].0, names) + seq![' '] + print_spec(
            xs[0].1,
            names,
        ) =~= t);
    }
}

proof fn lemma_join_pairs_prefix(xs: Seq<(Value, Value)>, m: int, names: Seq<Seq<char>>)
    requires
        0 <= m <= xs.len(),
    ensures
        join_pairs(xs.take(m), names).len() <= join_pairs(xs, names).len(),
        join_pairs(xs, names).subrange(0, join_pairs(xs.take(m), names).len() as int) == join_pairs(
            xs.take(m),
            names,
        ),
    decreases xs.len() - m,
{
    if m == xs.len() {
        assert(xs.take(m) =~= xs);
        assert(join_pairs(xs, names).subrange(0, join_pairs(xs, names).len() as int) =~= join_pairs(xs, names));
    } else {
        lemma_join_pairs_prefix(xs, m + 1, names);
        lemma_join_pairs_step(xs, m, names);
        let a = join_pairs(xs.take(m), names);
        let b = join_pairs(xs.take(m + 1), names);
        let all = join_pairs(xs, names);
        assert(b.subrange(0, a.len() as int) =~= a);
        assert(all.subrange(0, a.len() as int) =~= b.subrange(0, a.len() as int));
    }
}

/// Escaping is character by character.
proof fn lemma_escape_append(a: Seq<char>, b: Seq<char>)
    ensures
        escape(a + b) == escape(a) + escape(b),
    decreases b.len(),
{
    if b.len() == 0 {
        assert(a + b =~= a);
        assert(escape(a) + escape(b) =~= escape(a));
    } else {
        lemma_escape_append(a, b.drop_last());
        assert((a + b).drop_last() =~= a + b.drop_last());
        assert((a + b).last() == b.last());
        assert(escape(a) + (escape(b.drop_last()) + escape_char(b.last())) =~= escape(a) + escape(b.drop_last())
            + escape_char(b.last()));
    }
}

proof fn lemma_escape_step(t: Seq<char>, k: int)
    requires
        0 <= k < t.len(),
    ensures
        escape(t.take(k + 1)) == escape(t.take(k)) + escape_char(t[k]),
{
    assert(t.take(k + 1).drop_last() =~= t.take(k));
    assert(t.take(k + 1).last() == t[k]);
}


/// The items of a list or a vector.
pub open spec fn items_of(v: Value) -> Seq<Value> {
    match v {
        Value::List(l) => l@,
        Value::Vec(l) => l@,
        _ => Seq::empty(),
    }
}

/// Where each item of a printed list or vector stands in the text, and what
/// closes it.
#[verifier::rlimit(40)]
proof fn lemma_seq_layout(cs: Seq<char>, p0: int, v: Value, names: Seq<Seq<char>>, d: int, k: int)
    requires
        printed_at(cs, p0, v, names, d),
        v is List || v is Vec,
        0 <= k <= items_of(v).len(),
    ensures
        ({
            let xs = items_of(v);
            let jk = join(xs.take(k), names).len();
            let close = if v is List { ')' } else { ']' };
            &&& p0 + 1 + jk < cs.len()
            &&& k == xs.len() ==> cs[p0 + 1 + jk] == close && p0 + 2 + jk == p0 + print_spec(v, names).len()
            &&& 0 < k < xs.len() ==> cs[p0 + 1 + jk] == ' '
            &&& k < xs.len() ==> {
                let off = p0 + 1 + jk + (if k == 0 { 0int } else { 1int });
                &&& printed_at(cs, off, xs[k], names, d + 1)
                &&& off + print_spec(xs[k], names).len() == p0 + 1 + join(xs.take(k + 1), names).len()
            }
        }),
{
    let xs = items_of(v);
    let t = print_spec(v, names);
    let jall = join(xs, names);
    let jk = join(xs.take(k), names);
    let close = if v is List { ')' } else { ']' };
    assert(t =~= seq![if v is List { '(' } else { '[' }] + jall + seq![close]);
    lemma_join_prefix(xs, k, names);
    assert forall|i: int| 0 <= i < t.len() implies cs[p0 + i] == #[trigger] t[i] by {
        assert(cs.subrange(p0, p0 + t.len())[i] == t[i]);
    }
    if k == xs.len() {
        assert(xs.take(k) =~= xs);
        assert(cs[p0 + 1 + jk.len()] == t[1 + jk.len() as int]);
    } else {
        lemma_join_step(xs, k, names);
        lemma_join_prefix(xs, k + 1, names);
        let jk1 = join(xs.take(k + 1), names);
        let sep = if k == 0 { 0int } else { 1int };
        let off = p0 + 1 + jk.len() + sep;
        let item = print_spec(xs[k], names);
        assert(jk1.len() == jk.len() + sep + item.len());
        if k > 0 {
            assert(jk1[jk.len() as int] == ' ');
            assert(jall[jk.len() as int] == jk1[jk.len() as int]);
            assert(cs[p0 + 1 + jk.len()] == t[1 + jk.len() as int]);
        }
        assert(cs.subrange(off, off + item.len()) =~= item) by {
            assert forall|i: int| 0 <= i < item.len() implies cs.subrange(off, off + item.len())[i] == item[i] by {
                assert(jk1[jk.len() + sep + i] == item[i]);
                assert(jall[jk.len() + sep + i] == jk1[jk.len() + sep + i]);
                assert(cs[off + i] == t[1 + jk.len() + sep + i]);
            }
        }
        let after = off + item.len();
        if k + 1 < xs.len() {
            lemma_join_step(xs, k + 1, names);
            lemma_join_prefix(xs, k + 2, names);
            let jk2 = join(xs.take(k + 2), names);
            assert(jk2[jk1.len() as int] == ' ');
            assert(jall[jk1.len() as int] == jk2[jk1.len() as int]);
            assert(cs[after] == t[1 + jk1.len() as int]);
        } else {
            assert(xs.take(k + 1) =~= xs);
            assert(cs[after] == t[1 + jk1.len() as int]);
        }
        assert(readable(xs[k], names, d + 1));
    }
}


/// Where each key and value of a printed map stands in the text, and what
/// closes it.
proof fn lemma_map_layout(cs: Seq<char>, p0: int, v: Value, names: Seq<Seq<char>>, d: int, k: int)
    requires
        printed_at(cs, p0, v, names, d),
        v is Dict,
        0 <= k <= v->Dict_0@.len(),
    ensures
        ({
            let xs = v->Dict_0@;
            let jk = join_pairs(xs.take(k), names).len();
            &&& p0 + 1 + jk < cs.len()
            &&& k == xs.len() ==> cs[p0 + 1 + jk] == '}' && p0 + 2 + jk == p0 + print_spec(v, names).len()
            &&& 0 < k < xs.len() ==> cs[p0 + 1 + jk] == ' '
            &&& k < xs.len() ==> {
                let off = p0 + 1 + jk + (if k == 0 { 0int } else { 1int });
                let kl = print_spec(xs[k].0, names).len();
                &&& printed_at(cs, off, xs[k].0, names, d + 1)
                &&& cs[off + kl] == ' '
                &&& printed_at(cs, off + kl + 1, xs[k].1, names, d + 1)
                &&& off + kl + 1 + print_spec(xs[k].1, names).len() == p0 + 1 + join_pairs(xs.take(k + 1), names).len()
            }
        }),
{
    let xs = v->Dict_0@;
    let t = print_spec(v, names);
    let jall = join_pairs(xs, names);
    let jk = join_pairs(xs.take(k), names);
    assert(t =~= seq!['{'] + jall + seq!['}']);
    lemma_join_pairs_prefix(xs, k, names);
    assert forall|i: int| 0 <= i < t.len() implies cs[p0 + i] == #[trigger] t[i] by {
        assert(cs.subrange(p0, p0 + t.len())[i] == t[i]);
    }
    if k == xs.len() {
        assert(xs.take(k) =~= xs);
        assert(cs[p0 + 1 + jk.len()] == t[1 + jk.len() as int]);
    } else {
        lemma_join_pairs_step(xs, k, names);
        lemma_join_pairs_prefix(xs, k + 1, names);
        let jk1 = join_pairs(xs.take(k + 1), names);
        let sep = if k == 0 { 0int } else { 1int };
        let off = p0 + 1 + jk.len() + sep;
        let key = print_spec(xs[k].0, names);
        let val = print_spec(xs[k].1, names);
        assert(jk1.len() == jk.len() + sep + key.len() + 1 + val.len());
        if k > 0 {
            assert(jk1[jk.len() as int] == ' ');
            assert(jall[jk.len() as int] == jk1[jk.len() as int]);
            assert(cs[p0 + 1 + jk.len()] == t[1 + jk.len() as int]);
        }
        assert(cs.subrange(off, off + key.len()) =~= key) by {
            assert forall|i: int| 0 <= i < key.len() implies cs.subrange(off, off + key.len())[i] == key[i] by {
                assert(jk1[jk.len() + sep + i] == key[i]);
                assert(jall[jk.len() + sep + i] == jk1[jk.len() + sep + i]);
                assert(cs[off + i] == t[1 + jk.len() + sep + i]);
            }
        }
        assert(jk1[jk.len() + sep + key.len()] == ' ');
        assert(jall[jk.len() + sep + key.len()] == jk1[jk.len() + sep + key.len()]);
        assert(cs[off + key.len()] == t[1 + jk.len() + sep + key.len()]);
        let voff = off + key.len() + 1;
        assert(cs.subrange(voff, voff + val.len()) =~= val) by {
            assert forall|i: int| 0 <= i < val.len() implies cs.subrange(voff, voff + val.len())[i] == val[i] by {
                assert(jk1[jk.len() + sep + key.len() + 1 + i] == val[i]);
                assert(jall[jk.len() + sep + key.len() + 1 + i] == jk1[jk.len() + sep + key.len() + 1 + i]);
                assert(cs[voff + i] == t[1 + jk.len() + sep + key.len() + 1 + i]);
            }
        }
        let after = voff + val.len();
        if k + 1 < xs.len() {
            lemma_join_pairs_step(xs, k + 1, names);
            lemma_join_pairs_prefix(xs, k + 2, names);
            let jk2 = join_pairs(xs.take(k + 2), names);
            assert(jk2[jk1.len() as int] == ' ');
            assert(jall[jk1.len() as int] == jk2[jk1.len() as int]);
            assert(cs[after] == t[1 + jk1.len() as int]);
        } else {
            assert(xs.take(k + 1) =~= xs);
            assert(cs[after] == t[1 + jk1.len() as int]);
        }
        assert(readable(xs[k].0, names, d + 1));
        assert(readable(xs[k].1, names, d + 1));
    }
}

/// For the keys a printed map may hold, reading keeps `=` as it was.
proof fn lemma_atom_lang_eq(a2: Value, a: Value, b2: Value, b: Value)
    requires
        atom_key(a),
        atom_key(b),
        same_read(a2, a),
        same_read(b2, b),
    ensures
        lang_eq(a2, b2) == lang_eq(b, a),
{
}


/// A value that reads back is one whose printed text the printer pins down:
/// so for a readable `v`, `print` writes `print_spec(v, ..)` and `read_all`
/// of that text gives back `v`.
pub proof fn lemma_readable_printable(v: Value, names: Seq<Seq<char>>, d: int)
    requires
        readable(v, names, d),
    ensures
        printable(v, names.len()),
    decreases v,
{
    match v {
        Value::List(l) => {
            assert forall|i: int| 0 <= i < l@.len() implies printable(#[trigger] l@[i], names.len()) by {
                lemma_readable_printable(l@[i], names, d + 1);
            }
        },
        Value::Vec(l) => {
            assert forall|i: int| 0 <= i < l@.len() implies printable(#[trigger] l@[i], names.len()) by {
                lemma_readable_printable(l@[i], names, d + 1);
            }
        },
        Value::Dict(m) => {
            assert forall|i: int| 0 <= i < m@.len() implies printable(#[trigger] m@[i].0, names.len()) && printable(
                m@[i].1,
                names.len(),
            ) by {
                lemma_readable_printable(m@[i].0, names, d + 1);
                lemma_readable_printable(m@[i].1, names, d + 1);
            }
        },
        _ => {},
    }
}

// --- numbers -------------------------------------------------------------------

/// What a token is as far as the number grammar can tell without computing
/// a float.
#[derive(Clone, Copy, PartialEq, Eq, Debug, Structural)]
pub enum Numeric {
    /// Not numeric-looking: a symbol.
    NotNumber,
    Int(i64),
    /// One of the three non-finite spellings, as bits.
    NonFinite(u64),
    /// All digits, and too many of them for a 64-bit integer.
    TooBig,
    /// Starts like a number but does not parse whole, such as `1abc`: a
    /// symbol, since a partial parse would silently accept a typo.
    NotWhole,
    /// Only a float parse can say.
    NeedsFloat,
}

/// The token starts like a number: a digit, or a sign and then a digit.
pub open spec fn looks_numeric(cs: Seq<char>) -> bool {
    cs.len() > 0 && (('0' <= cs[0] <= '9') || ((cs[0] == '-' || cs[0] == '+') && cs.len() > 1
        && '0' <= cs[1] <= '9'))
}

/// `trim_start_matches(['-', '+'])`.
pub open spec fn strip_signs(cs: Seq<char>) -> Seq<char>
    decreases cs.len(),
{
    if cs.len() > 0 && (cs[0] == '-' || cs[0] == '+') {
        strip_signs(cs.drop_first())
    } else {
        cs
    }
}

pub open spec fn has_float_mark(cs: Seq<char>) -> bool {
    exists|i: int| 0 <= i < cs.len() && (cs[i] == '.' || cs[i] == 'e' || cs[i] == 'E')
}

pub open spec fn only_digits(cs: Seq<char>) -> bool {
    forall|i: int| 0 <= i < cs.len() ==> '0' <= #[trigger] cs[i] <= '9'
}

/// The number grammar, short of computing a float: the non-finite
/// spellings, then the shape test, then a whole-token integer; a token
/// without a float mark that is not one is too big when it is all digits,
/// and otherwise not a number at all.
pub open spec fn numeric_spec(cs: Seq<char>) -> Numeric {
    if cs == seq!['#', '#', 'I', 'n', 'f'] {
        Numeric::NonFinite(POS_INFINITY_BITS)
    } else if cs == seq!['#', '#', '-', 'I', 'n', 'f'] {
        Numeric::NonFinite(NEG_INFINITY_BITS)
    } else if cs == seq!['#', '#', 'N', 'a', 'N'] {
        Numeric::NonFinite(NAN_BITS)
    } else if !looks_numeric(cs) {
        Numeric::NotNumber
    } else if parse_i64_spec(cs) is Some {
        Numeric::Int(parse_i64_spec(cs).unwrap() as i64)
    } else if !has_float_mark(cs) {
        if only_digits(strip_signs(cs)) {
            Numeric::TooBig
        } else {
            Numeric::NotWhole
        }
    } else {
        Numeric::NeedsFloat
    }
}

fn chars_are(cs: &[char], want: &str) -> (r: bool)
    ensures
        r == (cs@ == want@),
{
    let w = chars_of(want);
    if cs.len() != w.len() {
        return false;
    }
    let mut i: usize = 0;
    while i < cs.len()
        invariant
            i <= cs@.len(),
            cs@.len() == w@.len(),
            w@ == want@,
            forall|j: int| 0 <= j < i ==> cs@[j] == w@[j],
        decreases cs@.len() - i,
    {
        if cs[i] != w[i] {
            return false;
        }
        i = i + 1;
    }
    proof {
        assert(cs@ =~= want@);
    }
    true
}

/// The index of the first character that is not a sign.
fn sign_prefix(cs: &[char]) -> (k: usize)
    ensures
        k <= cs@.len(),
        strip_signs(cs@) == cs@.subrange(k as int, cs@.len() as int),
{
    let mut k: usize = 0;
    proof {
        assert(cs@.subrange(0, cs@.len() as int) =~= cs@);
    }
    while k < cs.len() && (cs[k] == '-' || cs[k] == '+')
        invariant
            k <= cs@.len(),
            strip_signs(cs@) == strip_signs(cs@.subrange(k as int, cs@.len() as int)),
        decreases cs@.len() - k,
    {
        proof {
            assert(cs@.subrange(k as int, cs@.len() as int).drop_first() =~= cs@.subrange(
                k + 1,
                cs@.len() as int,
            ));
        }
        k = k + 1;
    }
    k
}

/// Classify a token by the number grammar.
#[verifier::loop_isolation(false)]
#[verifier::spinoff_prover]
pub fn numeric(cs: &[char]) -> (r: Numeric)
    ensures
        r == numeric_spec(cs@),
{
    proof {
        reveal_strlit("##Inf");
        reveal_strlit("##-Inf");
        reveal_strlit("##NaN");
        assert("##Inf"@ =~= seq!['#', '#', 'I', 'n', 'f']);
        assert("##-Inf"@ =~= seq!['#', '#', '-', 'I', 'n', 'f']);
        assert("##NaN"@ =~= seq!['#', '#', 'N', 'a', 'N']);
    }
    if chars_are(cs, "##Inf") {
        return Numeric::NonFinite(POS_INFINITY_BITS);
    }
    if chars_are(cs, "##-Inf") {
        return Numeric::NonFinite(NEG_INFINITY_BITS);
    }
    if chars_are(cs, "##NaN") {
        return Numeric::NonFinite(NAN_BITS);
    }
    let n = cs.len();
    let looks = n > 0 && (('0' <= cs[0] && cs[0] <= '9') || ((cs[0] == '-' || cs[0] == '+') && n > 1
        && '0' <= cs[1] && cs[1] <= '9'));
    if !looks {
        return Numeric::NotNumber;
    }
    match parse_i64(cs) {
        Some(v) => {
            return Numeric::Int(v);
        },
        None => {},
    }
    let mut i: usize = 0;
    let mut mark = false;
    while i < n
        invariant
            i <= n == cs@.len(),
            mark == exists|j: int| 0 <= j < i && (cs@[j] == '.' || cs@[j] == 'e' || cs@[j] == 'E'),
        decreases n - i,
    {
        if cs[i] == '.' || cs[i] == 'e' || cs[i] == 'E' {
            mark = true;
        }
        i = i + 1;
    }
    if mark {
        return Numeric::NeedsFloat;
    }
    let k = sign_prefix(cs);
    let mut j: usize = k;
    while j < n
        invariant
            k <= j <= n == cs@.len(),
            forall|t: int| k <= t < j ==> '0' <= #[trigger] cs@[t] <= '9',
        decreases n - j,
    {
        if !('0' <= cs[j] && cs[j] <= '9') {
            proof {
                assert(strip_signs(cs@)[j - k] == cs@[j as int]);
            }
            return Numeric::NotWhole;
        }
        j = j + 1;
    }
    proof {
        assert forall|t: int| 0 <= t < strip_signs(cs@).len() implies '0' <= #[trigger] strip_signs(
            cs@,
        )[t] <= '9' by {
            assert(strip_signs(cs@)[t] == cs@[k + t]);
        }
    }
    Numeric::TooBig
}

/// What a float-looking token reads as, given what a float parse of its text
/// gave: a finite float, or one of two errors. A finite-looking literal that
/// overflows to infinity is refused, because the digits the source wrote
/// would be gone.
pub fn float_literal(text: &str, parsed: Option<u64>) -> (r: Result<Value, String>)
    ensures
        match parsed {
            Some(bits) => if float_is_infinite(bits) {
                r matches Err(m) && m@ == "number `"@ + text@
                    + "` overflows to infinity; write `##Inf` to mean it"@
            } else {
                r == Ok::<Value, String>(Value::Float(bits))
            },
            None => r matches Err(m) && m@ == "`"@ + text@ + "` is not a valid number"@,
        },
{
    match parsed {
        Some(bits) => {
            if is_infinite(bits) {
                Err(cat3("number `", text, "` overflows to infinity; write `##Inf` to mean it"))
            } else {
                Ok(Value::Float(bits))
            }
        },
        None => Err(cat3("`", text, "` is not a valid number")),
    }
}

/// A printed integer reads back as the same integer: the text the printer
/// gives `Value::Int(i)` is, to the number grammar, the integer `i`, so
/// `parse_number` on it answers `Some(Ok(Value::Int(i)))`.
pub proof fn lemma_printed_int_parses(i: i64, names: Seq<Seq<char>>)
    ensures
        numeric_spec(print_spec(Value::Int(i), names)) == Numeric::Int(i),
{
    let t = print_spec(Value::Int(i), names);
    lemma_int_text_parses(i as int);
    assert(t[0] != '#');
    assert(t != seq!['#', '#', 'I', 'n', 'f']);
    assert(t != seq!['#', '#', '-', 'I', 'n', 'f']);
    assert(t != seq!['#', '#', 'N', 'a', 'N']);
    assert(looks_numeric(t));
}

/// The number a token denotes. A token is a number only if the whole token
/// parses: `None` means a symbol, `1abc` among them. `Some(Err)` is a number
/// this machine cannot hold as written, or a float literal that fails.
pub fn parse_number<P: Platform>(text: &str, p: &P) -> (r: Option<Result<Value, String>>)
    ensures
        match numeric_spec(text@) {
            Numeric::NotNumber => r is None,
            Numeric::Int(i) => r == Some(Ok::<Value, String>(Value::Int(i))),
            Numeric::NonFinite(b) => r == Some(Ok::<Value, String>(Value::Float(b))),
            Numeric::TooBig => r matches Some(Err(m)) && m@ == "number `"@ + text@
                + "` does not fit in a 64-bit integer"@,
            Numeric::NotWhole => r is None,
            Numeric::NeedsFloat => r is Some,
        },
{
    let cs = chars_of(text);
    match numeric(cs.as_slice()) {
        Numeric::NotNumber => None,
        Numeric::Int(i) => Some(Ok(Value::Int(i))),
        Numeric::NonFinite(b) => Some(Ok(Value::Float(b))),
        Numeric::TooBig => Some(Err(cat3("number `", text, "` does not fit in a 64-bit integer"))),
        Numeric::NotWhole => None,
        Numeric::NeedsFloat => Some(float_literal(text, p.parse_float(text))),
    }
}

} // verus!
