//! Source positions and reader errors.
//!
//! Spans are byte offsets into one source string; line and column are derived
//! only when an error is rendered.

use crate::text::{char_width, chars_of, nat_digits, nat_to_text, push_char, push_str, width_of};
use vstd::prelude::*;

verus! {

#[derive(Clone, Copy, PartialEq, Eq, Debug, Structural)]
pub struct Span {
    pub start: u32,
    pub end: u32,
}

impl Span {
    /// Offsets are stored as `u32`; a larger offset keeps its low 32 bits.
    pub fn new(start: usize, end: usize) -> (r: Span)
        ensures
            r.start == start as u32,
            r.end == end as u32,
    {
        Span { start: start as u32, end: end as u32 }
    }
}

/// Where a span came from. `Generated` carries the macro call site rather
/// than a position in any file; `Unknown` is span loss made visible.
#[derive(Clone, Copy, PartialEq, Eq, Debug, Structural)]
pub enum SpanOrigin {
    Source(Span),
    Generated(Span),
    Unknown,
}

impl SpanOrigin {
    pub open spec fn spec_span(self) -> Option<Span> {
        match self {
            SpanOrigin::Source(s) => Some(s),
            SpanOrigin::Generated(s) => Some(s),
            SpanOrigin::Unknown => None,
        }
    }

    pub fn span(&self) -> (r: Option<Span>)
        ensures
            r == self.spec_span(),
    {
        match self {
            SpanOrigin::Source(s) => Some(*s),
            SpanOrigin::Generated(s) => Some(*s),
            SpanOrigin::Unknown => None,
        }
    }
}

#[derive(Debug)]
pub struct LispErr {
    pub msg: String,
    pub origin: SpanOrigin,
    /// The input ended mid-form rather than being wrong. Only the reader sets
    /// it, and only a prompt asks.
    pub truncated: bool,
}

impl LispErr {
    pub fn at(span: Span, msg: String) -> (r: LispErr)
        ensures
            r.msg@ == msg@,
            r.origin == SpanOrigin::Source(span),
            !r.truncated,
    {
        LispErr { msg, origin: SpanOrigin::Source(span), truncated: false }
    }

    /// The same error, marked as "the input stopped early".
    pub fn truncated(self) -> (r: LispErr)
        ensures
            r.msg@ == self.msg@,
            r.origin == self.origin,
            r.truncated,
    {
        LispErr { truncated: true, ..self }
    }

    /// For phases downstream of the reader, whose input may be generated
    /// rather than read.
    pub fn at_origin(origin: SpanOrigin, msg: String) -> (r: LispErr)
        ensures
            r.msg@ == msg@,
            r.origin == origin,
            !r.truncated,
    {
        LispErr { msg, origin, truncated: false }
    }

    /// Render with 1-based line and column, resolved against the source the
    /// span came from.
    pub fn render(&self, path: &str, src: &str) -> (r: String)
        requires
            src@.len() < usize::MAX,
        ensures
            r@ == render_spec(self.origin, self.msg@, path@, src@),
    {
        let mut out = String::new();
        push_str(&mut out, path);
        match self.origin.span() {
            Some(s) => {
                let (line, col) = line_col(src, s.start as usize);
                push_char(&mut out, ':');
                let l = nat_to_text(line as u64);
                push_str(&mut out, l.as_str());
                push_char(&mut out, ':');
                let c = nat_to_text(col as u64);
                push_str(&mut out, c.as_str());
            },
            None => {},
        }
        push_char(&mut out, ':');
        push_char(&mut out, ' ');
        push_str(&mut out, self.msg.as_str());
        proof {
            match self.origin.spec_span() {
                Some(s) => {
                    let (line, col) = line_col_spec(src@, s.start as int);
                    assert(out@ =~= path@ + seq![':'] + nat_digits(line) + seq![':'] + nat_digits(
                        col,
                    ) + seq![':', ' '] + self.msg@);
                },
                None => {
                    assert(out@ =~= path@ + seq![':', ' '] + self.msg@);
                },
            }
        }
        out
    }
}

/// `path:line:col: msg` where the origin has a position, `path: msg` where
/// it has none.
pub open spec fn render_spec(o: SpanOrigin, msg: Seq<char>, path: Seq<char>, src: Seq<char>) -> Seq<
    char,
> {
    match o.spec_span() {
        Some(s) => {
            let (line, col) = line_col_spec(src, s.start as int);
            path + seq![':'] + nat_digits(line) + seq![':'] + nat_digits(col) + seq![':', ' '] + msg
        },
        None => path + seq![':', ' '] + msg,
    }
}

/// How many characters of `cs` start before byte offset `off`.
pub open spec fn count_before(cs: Seq<char>, off: int) -> nat
    decreases cs.len(),
{
    if cs.len() == 0 || off <= 0 {
        0
    } else {
        1 + count_before(cs.drop_first(), off - char_width(cs[0]))
    }
}

/// Newlines in `cs`.
pub open spec fn newlines(cs: Seq<char>) -> nat
    decreases cs.len(),
{
    if cs.len() == 0 {
        0
    } else {
        newlines(cs.drop_last()) + if cs.last() == '\n' {
            1nat
        } else {
            0nat
        }
    }
}

/// Characters after the last newline of `cs`.
pub open spec fn last_line_len(cs: Seq<char>) -> nat
    decreases cs.len(),
{
    if cs.len() == 0 {
        0
    } else if cs.last() == '\n' {
        0
    } else {
        last_line_len(cs.drop_last()) + 1
    }
}

/// Line and column (both 1-based, the column in characters) of the byte
/// offset `off` in `src`: the characters that start before it decide both.
pub open spec fn line_col_spec(src: Seq<char>, off: int) -> (nat, nat) {
    let before = src.take(count_before(src, off) as int);
    (newlines(before) + 1, last_line_len(before) + 1)
}

proof fn lemma_count_before_bound(cs: Seq<char>, off: int)
    ensures
        count_before(cs, off) <= cs.len(),
    decreases cs.len(),
{
    if cs.len() > 0 && off > 0 {
        lemma_count_before_bound(cs.drop_first(), off - char_width(cs[0]));
    }
}

pub fn line_col(src: &str, offset: usize) -> (r: (usize, usize))
    requires
        src@.len() < usize::MAX,
    ensures
        r.0 as nat == line_col_spec(src@, offset as int).0,
        r.1 as nat == line_col_spec(src@, offset as int).1,
{
    let cs = chars_of(src);
    let mut line: usize = 1;
    let mut col: usize = 1;
    let mut i: usize = 0;
    let mut b: usize = 0;
    proof {
        lemma_count_before_bound(cs@, offset as int);
        assert(cs@.skip(0) =~= cs@);
    }
    while i < cs.len() && b < offset
        invariant
            cs@ == src@,
            cs@.len() < usize::MAX,
            i <= cs@.len(),
            b <= offset,
            i + count_before(cs@.skip(i as int), offset - b) == count_before(cs@, offset as int),
            line as nat == newlines(cs@.take(i as int)) + 1,
            col as nat == last_line_len(cs@.take(i as int)) + 1,
            line <= i + 1,
            col <= i + 1,
        decreases cs@.len() - i,
    {
        let c = cs[i];
        let w = width_of(c);
        let ghost old_b = b;
        proof {
            let rest = cs@.skip(i as int);
            assert(rest[0] == c);
            assert(rest.drop_first() =~= cs@.skip(i + 1));
            assert(count_before(rest, offset - old_b) == 1 + count_before(
                cs@.skip(i + 1),
                offset - old_b - w,
            ));
            assert(cs@.take(i + 1).drop_last() =~= cs@.take(i as int));
            assert(cs@.take(i + 1).last() == c);
        }
        if c == '\n' {
            line = line + 1;
            col = 1;
        } else {
            col = col + 1;
        }
        i = i + 1;
        if w > offset - b {
            b = offset;
            proof {
                assert(count_before(cs@.skip(i as int), 0) == 0);
                assert(count_before(cs@.skip(i as int), offset - old_b - w) == 0);
            }
        } else {
            b = b + w;
        }
    }
    proof {
        assert(count_before(cs@.skip(i as int), offset - b) == 0) by {
            if i < cs@.len() {
                assert(b >= offset);
            }
        }
        assert(count_before(cs@, offset as int) == i);
    }
    (line, col)
}

} // verus!
