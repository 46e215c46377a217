//! The instruction set, the compiled function, and the disassembler.
//!
//! Instructions are a typed enum with `u32` operands rather than packed
//! words, so there is no operand width left to run out of.

use crate::error::{line_col, line_col_spec, SpanOrigin};
use crate::platform::Platform;
use crate::printer;
use crate::text::{copy_str, nat_digits, nat_to_text, push_char, push_str};
use crate::value::{Interner, SymId, Value};
use vstd::prelude::*;

verus! {

/// A call's callee sits at `base` and its arguments at `base+1 ..=
/// base+argc`; the callee's frame receives the arguments in its own slots
/// `0..argc`.
#[derive(Clone, Copy, PartialEq, Eq, Debug, Structural)]
pub enum Instr {
    Const { dst: u32, k: u32 },
    Move { dst: u32, src: u32 },
    /// The operand is the interned name: forward references need no fixup.
    GetGlobal { dst: u32, name: SymId },
    SetGlobal { name: SymId, src: u32 },
    GetCapture { dst: u32, idx: u32 },
    /// Self-recursion resolves through the running closure's own identity.
    GetSelf { dst: u32 },
    SetCell { cell: u32, src: u32 },
    Closure { dst: u32, proto: u32 },
    Call { dst: u32, base: u32, argc: u32 },
    TailCall { base: u32, argc: u32 },
    Return { src: u32 },
    Jump { target: u32 },
    /// Only `nil` and `false` are falsy.
    JumpUnless { cond: u32, target: u32 },
    Throw { src: u32 },
    PushHandler { catch: u32, err: u32 },
    PushFinally { target: u32 },
    PopHandler,
    EndFinally,
}

/// The size an instruction may not exceed.
pub const INSTR_SIZE_LIMIT: usize = 16;

pub fn instr_size() -> (r: usize)
    ensures
        r as nat == vstd::layout::size_of::<Instr>(),
{
    core::mem::size_of::<Instr>()
}

/// Where a capture's value comes from, read in the enclosing frame at the
/// moment `Closure` runs. Copied, not referenced.
#[derive(Clone, Copy, PartialEq, Eq, Debug, Structural)]
pub enum CaptureSrc {
    Local(u32),
    Capture(u32),
    SelfFn,
}

/// One compiled function: code plus constants, and no captured values.
#[derive(Debug)]
pub struct Proto {
    pub name: Option<SymId>,
    /// Named parameters, including the rest parameter when `variadic`.
    pub params: u32,
    pub variadic: bool,
    pub slots: u32,
    pub code: Vec<Instr>,
    /// `lines[i]` is the origin of the instruction at `i`.
    pub lines: Vec<SpanOrigin>,
    pub consts: Vec<Value>,
    pub captures: Vec<CaptureSrc>,
}

impl Proto {
    /// Code and positions run in parallel.
    pub open spec fn wf(&self) -> bool {
        self.code@.len() == self.lines@.len()
    }

    /// Every slot an instruction names, a call's whole argument window
    /// included, lies inside the frame the proto declares.
    pub open spec fn slots_inside(&self) -> bool {
        forall|k: int| 0 <= k < self.code@.len() ==> #[trigger] names_slots_below(self.code@[k], self.slots)
    }

    /// Every jump, and every handler's entry, lands on an instruction of
    /// this proto.
    pub open spec fn targets_inside(&self) -> bool {
        forall|k: int|
            0 <= k < self.code@.len() ==> (#[trigger] jump_target(self.code@[k]) matches Some(t) ==> (t as int)
                < self.code@.len())
    }
}

/// Where an instruction can send the program counter, other than onward.
pub open spec fn jump_target(i: Instr) -> Option<u32> {
    match i {
        Instr::Jump { target } => Some(target),
        Instr::JumpUnless { target, .. } => Some(target),
        Instr::PushFinally { target } => Some(target),
        Instr::PushHandler { catch, .. } => Some(catch),
        _ => None,
    }
}

/// Every slot `i` reads or writes is below `n`.
pub open spec fn names_slots_below(i: Instr, n: u32) -> bool {
    match i {
        Instr::Const { dst, .. } => dst < n,
        Instr::GetCapture { dst, .. } => dst < n,
        Instr::GetSelf { dst } => dst < n,
        Instr::GetGlobal { dst, .. } => dst < n,
        Instr::Closure { dst, .. } => dst < n,
        Instr::Move { dst, src } => dst < n && src < n,
        Instr::SetCell { cell, src } => cell < n && src < n,
        Instr::SetGlobal { src, .. } => src < n,
        Instr::Return { src } => src < n,
        Instr::Throw { src } => src < n,
        Instr::Call { dst, base, argc } => dst < n && base + argc < n,
        Instr::TailCall { base, argc } => base + argc < n,
        Instr::JumpUnless { cond, .. } => cond < n,
        Instr::PushHandler { err, .. } => err < n,
        Instr::Jump { .. } => true,
        Instr::PushFinally { .. } => true,
        Instr::PopHandler => true,
        Instr::EndFinally => true,
    }
}

/// What compiling produces: `protos[0]` of a file is its top level, and every
/// nested `fn` is an index into this vector.
#[derive(Debug)]
pub struct Chunk {
    pub protos: Vec<Proto>,
}

impl Chunk {
    pub open spec fn wf(&self) -> bool {
        forall|i: int| 0 <= i < self.protos@.len() ==> (#[trigger] self.protos@[i]).wf()
    }

    /// No instruction of any proto names a slot outside its frame.
    pub open spec fn slots_inside(&self) -> bool {
        forall|i: int| 0 <= i < self.protos@.len() ==> (#[trigger] self.protos@[i]).slots_inside()
    }

    /// No jump of any proto leaves its function.
    pub open spec fn targets_inside(&self) -> bool {
        forall|i: int| 0 <= i < self.protos@.len() ==> (#[trigger] self.protos@[i]).targets_inside()
    }
}

/// The mnemonic an instruction disassembles to.
pub open spec fn mnemonic(i: Instr) -> &'static str {
    match i {
        Instr::Const { .. } => "CONST",
        Instr::Move { .. } => "MOVE",
        Instr::GetGlobal { .. } => "GETGLOBAL",
        Instr::SetGlobal { .. } => "SETGLOBAL",
        Instr::GetCapture { .. } => "GETCAP",
        Instr::GetSelf { .. } => "GETSELF",
        Instr::SetCell { .. } => "SETCELL",
        Instr::Closure { .. } => "CLOSURE",
        Instr::Call { .. } => "CALL",
        Instr::TailCall { .. } => "TAILCALL",
        Instr::Return { .. } => "RETURN",
        Instr::Jump { .. } => "JUMP",
        Instr::JumpUnless { .. } => "JUMPUNLESS",
        Instr::Throw { .. } => "THROW",
        Instr::PushHandler { .. } => "PUSHHANDLER",
        Instr::PushFinally { .. } => "PUSHFINALLY",
        Instr::PopHandler => "POPHANDLER",
        Instr::EndFinally => "ENDFINALLY",
    }
}

/// `r` followed by a slot number.
pub open spec fn reg(n: u32) -> Seq<char> {
    seq!['r'] + nat_digits(n as nat)
}

/// A number, zero-padded to four digits.
pub open spec fn pad4(n: nat) -> Seq<char> {
    let d = nat_digits(n);
    if d.len() >= 4 {
        d
    } else {
        Seq::new((4 - d.len()) as nat, |i: int| '0') + d
    }
}

/// A program counter, zero-padded to four digits.
pub open spec fn pc4(n: u32) -> Seq<char> {
    pad4(n as nat)
}

/// How many digits a number up to four digits long has.
proof fn lemma_digit_count(n: nat)
    ensures
        n < 10 ==> nat_digits(n).len() == 1,
        10 <= n < 100 ==> nat_digits(n).len() == 2,
        100 <= n < 1000 ==> nat_digits(n).len() == 3,
        n >= 1000 ==> nat_digits(n).len() >= 4,
    decreases n,
{
    if n >= 10 {
        lemma_digit_count(n / 10);
    }
}

fn push_reg(out: &mut String, n: u32)
    ensures
        final(out)@ == old(out)@ + reg(n),
{
    push_char(out, 'r');
    let t = nat_to_text(n as u64);
    push_str(out, t.as_str());
    proof {
        assert(out@ =~= old(out)@ + reg(n));
    }
}

fn push_pc(out: &mut String, n: u32)
    ensures
        final(out)@ == old(out)@ + pc4(n),
{
    let t = nat_to_text(n as u64);
    let len = t.as_str().unicode_len();
    let mut k: usize = len;
    let ghost start = out@;
    while k < 4
        invariant
            len <= k <= 4 || (len > 4 && k == len),
            len == nat_digits(n as nat).len(),
            k < 4 ==> out@ == start + Seq::new((k - len) as nat, |i: int| '0'),
            k >= 4 && len < 4 ==> out@ == start + Seq::new((4 - len) as nat, |i: int| '0'),
            len >= 4 ==> out@ == start,
        decreases 4 - k,
    {
        push_char(out, '0');
        proof {
            assert(out@ =~= start + Seq::new((k + 1 - len) as nat, |i: int| '0'));
        }
        k = k + 1;
    }
    push_str(out, t.as_str());
    proof {
        if len < 4 {
            assert(out@ =~= start + pc4(n));
        } else {
            assert(out@ =~= start + pc4(n));
        }
    }
}

/// `name` padded with spaces to at least `width` characters.
pub open spec fn padded(s: Seq<char>, width: nat) -> Seq<char> {
    if s.len() >= width {
        s
    } else {
        s + Seq::new((width - s.len()) as nat, |i: int| ' ')
    }
}

fn push_padded(out: &mut String, s: &str, width: usize)
    ensures
        final(out)@ == old(out)@ + padded(s@, width as nat),
{
    push_str(out, s);
    let ghost mid = out@;
    let len = s.unicode_len();
    let mut k: usize = len;
    proof {
        assert(mid + Seq::new(0, |i: int| ' ') =~= mid);
    }
    while k < width
        invariant
            len == s@.len(),
            len <= k,
            len < width ==> k <= width,
            len >= width ==> k == len,
            out@ == mid + Seq::new((k - len) as nat, |i: int| ' '),
        decreases width - k,
    {
        push_char(out, ' ');
        proof {
            assert(out@ =~= mid + Seq::new((k + 1 - len) as nat, |i: int| ' '));
        }
        k = k + 1;
    }
    proof {
        if len >= width {
            assert(out@ =~= old(out)@ + padded(s@, width as nat));
        } else {
            assert(k == width);
            assert(out@ =~= old(out)@ + padded(s@, width as nat));
        }
    }
}

/// The name interned at `id`, or nothing.
pub open spec fn name_text(names: Seq<Seq<char>>, id: u32) -> Seq<char> {
    if (id as int) < names.len() {
        names[id as int]
    } else {
        Seq::empty()
    }
}

/// How a disassembly spells an instruction's operands.
pub open spec fn operands(i: Instr, names: Seq<Seq<char>>) -> Seq<char> {
    match i {
        Instr::Const { dst, k } => reg(dst) + " <- k"@ + nat_digits(k as nat),
        Instr::Move { dst, src } => reg(dst) + " <- "@ + reg(src),
        Instr::GetGlobal { dst, name } => reg(dst) + " <- "@ + name_text(names, name.0),
        Instr::SetGlobal { name, src } => name_text(names, name.0) + " <- "@ + reg(src),
        Instr::GetCapture { dst, idx } => reg(dst) + " <- c"@ + nat_digits(idx as nat),
        Instr::GetSelf { dst } => reg(dst) + " <- self"@,
        Instr::SetCell { cell, src } => seq!['['] + reg(cell) + "] <- "@ + reg(src),
        Instr::Closure { dst, proto } => reg(dst) + " <- proto "@ + nat_digits(proto as nat),
        Instr::Call { dst, base, argc } => reg(dst) + " <- "@ + reg(base) + seq!['('] + nat_digits(argc as nat)
            + seq![')'],
        Instr::TailCall { base, argc } => reg(base) + seq!['('] + nat_digits(argc as nat) + seq![')'],
        Instr::Return { src } => reg(src),
        Instr::Jump { target } => pc4(target),
        Instr::JumpUnless { cond, target } => reg(cond) + ", "@ + pc4(target),
        Instr::Throw { src } => reg(src),
        Instr::PushHandler { catch, err } => "catch "@ + pc4(catch) + ", err "@ + reg(err),
        Instr::PushFinally { target } => pc4(target),
        Instr::PopHandler => Seq::empty(),
        Instr::EndFinally => Seq::empty(),
    }
}

/// An instruction's mnemonic and its operands.
pub fn render(i: &Instr, interner: &Interner) -> (r: (&'static str, String))
    ensures
        r.0 == mnemonic(*i),
        r.1@ == operands(*i, interner@),
{
    let mut o = String::new();
    match *i {
        Instr::Const { dst, k } => {
            push_reg(&mut o, dst);
            push_str(&mut o, " <- k");
            let t = nat_to_text(k as u64);
            push_str(&mut o, t.as_str());
            proof {
                assert(o@ =~= operands(*i, interner@));
            }
            ("CONST", o)
        },
        Instr::Move { dst, src } => {
            push_reg(&mut o, dst);
            push_str(&mut o, " <- ");
            push_reg(&mut o, src);
            proof {
                reveal_strlit(" <- ");
                assert(o@ =~= reg(dst) + seq![' ', '<', '-', ' '] + reg(src));
            }
            proof {
                assert(o@ =~= operands(*i, interner@));
            }
            ("MOVE", o)
        },
        Instr::GetGlobal { dst, name } => {
            push_reg(&mut o, dst);
            push_str(&mut o, " <- ");
            push_str(&mut o, interner.name_or_empty(name.0));
            proof {
                assert(o@ =~= operands(*i, interner@));
            }
            ("GETGLOBAL", o)
        },
        Instr::SetGlobal { name, src } => {
            push_str(&mut o, interner.name_or_empty(name.0));
            push_str(&mut o, " <- ");
            push_reg(&mut o, src);
            proof {
                assert(o@ =~= operands(*i, interner@));
            }
            ("SETGLOBAL", o)
        },
        Instr::GetCapture { dst, idx } => {
            push_reg(&mut o, dst);
            push_str(&mut o, " <- c");
            let t = nat_to_text(idx as u64);
            push_str(&mut o, t.as_str());
            proof {
                assert(o@ =~= operands(*i, interner@));
            }
            ("GETCAP", o)
        },
        Instr::GetSelf { dst } => {
            push_reg(&mut o, dst);
            push_str(&mut o, " <- self");
            proof {
                assert(o@ =~= operands(*i, interner@));
            }
            ("GETSELF", o)
        },
        Instr::SetCell { cell, src } => {
            push_char(&mut o, '[');
            push_reg(&mut o, cell);
            push_str(&mut o, "] <- ");
            push_reg(&mut o, src);
            proof {
                assert(o@ =~= operands(*i, interner@));
            }
            ("SETCELL", o)
        },
        Instr::Closure { dst, proto } => {
            push_reg(&mut o, dst);
            push_str(&mut o, " <- proto ");
            let t = nat_to_text(proto as u64);
            push_str(&mut o, t.as_str());
            proof {
                assert(o@ =~= operands(*i, interner@));
            }
            ("CLOSURE", o)
        },
        Instr::Call { dst, base, argc } => {
            push_reg(&mut o, dst);
            push_str(&mut o, " <- ");
            push_reg(&mut o, base);
            push_char(&mut o, '(');
            let t = nat_to_text(argc as u64);
            push_str(&mut o, t.as_str());
            push_char(&mut o, ')');
            proof {
                assert(o@ =~= operands(*i, interner@));
            }
            ("CALL", o)
        },
        Instr::TailCall { base, argc } => {
            push_reg(&mut o, base);
            push_char(&mut o, '(');
            let t = nat_to_text(argc as u64);
            push_str(&mut o, t.as_str());
            push_char(&mut o, ')');
            proof {
                assert(o@ =~= operands(*i, interner@));
            }
            ("TAILCALL", o)
        },
        Instr::Return { src } => {
            push_reg(&mut o, src);
            proof {
                assert(o@ =~= reg(src));
            }
            proof {
                assert(o@ =~= operands(*i, interner@));
            }
            ("RETURN", o)
        },
        Instr::Jump { target } => {
            push_pc(&mut o, target);
            proof {
                assert(o@ =~= pc4(target));
            }
            proof {
                assert(o@ =~= operands(*i, interner@));
            }
            ("JUMP", o)
        },
        Instr::JumpUnless { cond, target } => {
            push_reg(&mut o, cond);
            push_str(&mut o, ", ");
            push_pc(&mut o, target);
            proof {
                assert(o@ =~= operands(*i, interner@));
            }
            ("JUMPUNLESS", o)
        },
        Instr::Throw { src } => {
            push_reg(&mut o, src);
            proof {
                assert(o@ =~= reg(src));
            }
            proof {
                assert(o@ =~= operands(*i, interner@));
            }
            ("THROW", o)
        },
        Instr::PushHandler { catch, err } => {
            push_str(&mut o, "catch ");
            push_pc(&mut o, catch);
            push_str(&mut o, ", err ");
            push_reg(&mut o, err);
            proof {
                assert(o@ =~= operands(*i, interner@));
            }
            ("PUSHHANDLER", o)
        },
        Instr::PushFinally { target } => {
            push_pc(&mut o, target);
            proof {
                assert(o@ =~= operands(*i, interner@));
            }
            ("PUSHFINALLY", o)
        },
        Instr::PopHandler => {
            assert(o@ =~= operands(*i, interner@));
            ("POPHANDLER", o)
        },
        Instr::EndFinally => {
            assert(o@ =~= operands(*i, interner@));
            ("ENDFINALLY", o)
        },
    }
}

/// The position a disassembly prints on every instruction: `line:col`,
/// `generated line:col`, or `?`.
pub open spec fn position_text(o: SpanOrigin, src: Seq<char>) -> Seq<char> {
    match o {
        SpanOrigin::Source(s) => nat_digits(line_col_spec(src, s.start as int).0) + seq![':'] + nat_digits(
            line_col_spec(src, s.start as int).1,
        ),
        SpanOrigin::Generated(s) => seq!['g', 'e', 'n', 'e', 'r', 'a', 't', 'e', 'd', ' '] + nat_digits(
            line_col_spec(src, s.start as int).0,
        ) + seq![':'] + nat_digits(line_col_spec(src, s.start as int).1),
        SpanOrigin::Unknown => seq!['?'],
    }
}

/// The position a disassembly prints on every instruction.
pub fn position(o: SpanOrigin, src: &str) -> (r: String)
    requires
        src@.len() < usize::MAX,
    ensures
        r@ == position_text(o, src@),
{
    let mut out = String::new();
    match o {
        SpanOrigin::Source(s) => {
            let (line, col) = line_col(src, s.start as usize);
            let l = nat_to_text(line as u64);
            push_str(&mut out, l.as_str());
            push_char(&mut out, ':');
            let c = nat_to_text(col as u64);
            push_str(&mut out, c.as_str());
            proof {
                assert(out@ =~= nat_digits(line as nat) + seq![':'] + nat_digits(col as nat));
            }
        },
        SpanOrigin::Generated(s) => {
            let (line, col) = line_col(src, s.start as usize);
            push_str(&mut out, "generated ");
            let l = nat_to_text(line as u64);
            push_str(&mut out, l.as_str());
            push_char(&mut out, ':');
            let c = nat_to_text(col as u64);
            push_str(&mut out, c.as_str());
            proof {
                reveal_strlit("generated ");
                assert(out@ =~= seq!['g', 'e', 'n', 'e', 'r', 'a', 't', 'e', 'd', ' '] + nat_digits(
                    line as nat,
                ) + seq![':'] + nat_digits(col as nat));
            }
        },
        SpanOrigin::Unknown => {
            push_char(&mut out, '?');
            proof {
                assert(out@ =~= seq!['?']);
            }
        },
    }
    out
}

/// The name a proto's header gives it: its own, or `<top>` for a file's
/// top level and `<fn>` for an anonymous function.
pub open spec fn proto_name_text(idx: nat, p: Proto, names: Seq<Seq<char>>) -> Seq<char> {
    match p.name {
        Some(s) => name_text(names, s.0),
        None => if idx == 0 {
            "<top>"@
        } else {
            "<fn>"@
        },
    }
}

/// A proto's parameters: how many are fixed, and `&rest` when there is a
/// rest parameter.
pub open spec fn params_text(p: Proto) -> Seq<char> {
    if p.variadic && p.params > 0 {
        nat_digits((p.params - 1) as nat) + " &rest"@
    } else {
        nat_digits(p.params as nat)
    }
}

/// The first line of a proto's listing.
pub open spec fn header_text(idx: nat, p: Proto, names: Seq<Seq<char>>) -> Seq<char> {
    "proto "@ + nat_digits(idx) + "  "@ + proto_name_text(idx, p, names) + "  params "@ + params_text(p)
        + "  slots "@ + nat_digits(p.slots as nat) + seq!['\n']
}

/// The first `n` lines of a constant pool.
pub open spec fn const_lines(cs: Seq<Value>, names: Seq<Seq<char>>, n: nat) -> Seq<char>
    decreases n,
{
    if n == 0 {
        Seq::empty()
    } else {
        const_lines(cs, names, (n - 1) as nat) + "    k"@ + nat_digits((n - 1) as nat) + "  "@
            + crate::printer::print_spec(cs[n - 1], names) + seq!['\n']
    }
}

/// Where a capture comes from.
pub open spec fn capture_text(c: CaptureSrc) -> Seq<char> {
    match c {
        CaptureSrc::Local(slot) => "local "@ + reg(slot),
        CaptureSrc::Capture(ci) => "capture c"@ + nat_digits(ci as nat),
        CaptureSrc::SelfFn => "self"@,
    }
}

/// The first `n` lines of a capture list.
pub open spec fn capture_lines(cs: Seq<CaptureSrc>, n: nat) -> Seq<char>
    decreases n,
{
    if n == 0 {
        Seq::empty()
    } else {
        capture_lines(cs, (n - 1) as nat) + "    c"@ + nat_digits((n - 1) as nat) + "  "@ + capture_text(
            cs[n - 1],
        ) + seq!['\n']
    }
}

/// The line for the instruction at `pc`.
pub open spec fn code_line(pc: nat, p: Proto, names: Seq<Seq<char>>, src: Seq<char>) -> Seq<char> {
    let ins = p.code@[pc as int];
    let at = if pc < p.lines@.len() {
        p.lines@[pc as int]
    } else {
        SpanOrigin::Unknown
    };
    "    "@ + pad4(pc) + "  "@ + padded(mnemonic(ins)@, 11) + seq![' '] + padded(operands(ins, names), 22) + seq![
        ' ',
    ] + position_text(at, src) + seq!['\n']
}

/// The first `n` lines of a proto's code.
pub open spec fn code_lines(p: Proto, names: Seq<Seq<char>>, src: Seq<char>, n: nat) -> Seq<char>
    decreases n,
{
    if n == 0 {
        Seq::empty()
    } else {
        code_lines(p, names, src, (n - 1) as nat) + code_line((n - 1) as nat, p, names, src)
    }
}

/// A proto's listing: its header, its constants and captures where it has
/// any, and its code.
pub open spec fn proto_text(idx: nat, p: Proto, names: Seq<Seq<char>>, src: Seq<char>) -> Seq<char> {
    header_text(idx, p, names) + (if p.consts@.len() > 0 {
        "  constants\n"@ + const_lines(p.consts@, names, p.consts@.len())
    } else {
        Seq::empty()
    }) + (if p.captures@.len() > 0 {
        "  captures\n"@ + capture_lines(p.captures@, p.captures@.len())
    } else {
        Seq::empty()
    }) + "  code\n"@ + code_lines(p, names, src, p.code@.len())
}

/// The listings of the first `n` protos, in index order, separated by blank
/// lines.
pub open spec fn listing(ps: Seq<Proto>, names: Seq<Seq<char>>, src: Seq<char>, n: nat) -> Seq<char>
    decreases n,
{
    if n == 0 {
        Seq::empty()
    } else {
        listing(ps, names, src, (n - 1) as nat) + (if n > 1 {
            seq!['\n']
        } else {
            Seq::empty()
        }) + proto_text((n - 1) as nat, ps[n - 1], names, src)
    }
}

/// Every constant of every proto prints exactly (finite floats are the
/// host's to spell).
pub open spec fn consts_printable(ps: Seq<Proto>, n: nat) -> bool {
    forall|j: int, k: int|
        0 <= j < ps.len() && 0 <= k < ps[j].consts@.len() ==> crate::printer::printable(
            #[trigger] ps[j].consts@[k],
            n,
        )
}

/// The disassembly of every proto, in index order, separated by blank
/// lines.
pub fn disassemble<P: Platform>(chunk: &Chunk, interner: &Interner, src: &str, p: &P) -> (r: String)
    requires
        src@.len() < usize::MAX,
    ensures
        consts_printable(chunk.protos@, interner@.len()) ==> r@ == listing(
            chunk.protos@,
            interner@,
            src@,
            chunk.protos@.len(),
        ),
{
    let mut out = String::new();
    let mut i: usize = 0;
    while i < chunk.protos.len()
        invariant
            src@.len() < usize::MAX,
            i <= chunk.protos@.len(),
            consts_printable(chunk.protos@, interner@.len()) ==> out@ == listing(
                chunk.protos@,
                interner@,
                src@,
                i as nat,
            ),
        decreases chunk.protos@.len() - i,
    {
        if i > 0 {
            push_char(&mut out, '\n');
        }
        proof {
            if consts_printable(chunk.protos@, interner@.len()) {
                assert forall|k: int| 0 <= k < chunk.protos@[i as int].consts@.len() implies crate::printer::printable(
                    #[trigger] chunk.protos@[i as int].consts@[k],
                    interner@.len(),
                ) by {
                    assert(crate::printer::printable(chunk.protos@[i as int].consts@[k], interner@.len()));
                }
            }
        }
        disasm_proto(&mut out, i, &chunk.protos[i], interner, src, p);
        i = i + 1;
        proof {
            if consts_printable(chunk.protos@, interner@.len()) {
                assert(out@ =~= listing(chunk.protos@, interner@, src@, i as nat));
            }
        }
    }
    out
}

fn disasm_proto<P: Platform>(
    out: &mut String,
    idx: usize,
    proto: &Proto,
    interner: &Interner,
    src: &str,
    p: &P,
)
    requires
        src@.len() < usize::MAX,
    ensures
        (forall|k: int|
            0 <= k < proto.consts@.len() ==> crate::printer::printable(#[trigger] proto.consts@[k], interner@.len()))
            ==> final(out)@ == old(out)@ + proto_text(idx as nat, *proto, interner@, src@),
{
    let ghost start = out@;
    push_header(out, idx, proto, interner);
    let ghost a = out@;
    push_consts(out, proto, interner, p);
    let ghost b = out@;
    push_captures(out, proto);
    let ghost c = out@;
    push_str(out, "  code\n");
    let ghost d = out@;
    let mut pc: usize = 0;
    while pc < proto.code.len()
        invariant
            src@.len() < usize::MAX,
            pc <= proto.code@.len(),
            out@ == d + code_lines(*proto, interner@, src@, pc as nat),
        decreases proto.code@.len() - pc,
    {
        push_code_line(out, pc, proto, interner, src);
        pc = pc + 1;
    }
    proof {
        if forall|k: int|
            0 <= k < proto.consts@.len() ==> crate::printer::printable(#[trigger] proto.consts@[k], interner@.len()) {
            assert(out@ =~= start + proto_text(idx as nat, *proto, interner@, src@));
        }
    }
}

/// A proto's header line.
fn push_header(out: &mut String, idx: usize, proto: &Proto, interner: &Interner)
    ensures
        final(out)@ == old(out)@ + header_text(idx as nat, *proto, interner@),
{
    push_str(out, "proto ");
    let t = nat_to_text(idx as u64);
    push_str(out, t.as_str());
    push_str(out, "  ");
    match proto.name {
        Some(s) => push_str(out, interner.name_or_empty(s.0)),
        None => {
            if idx == 0 {
                push_str(out, "<top>");
            } else {
                push_str(out, "<fn>");
            }
        },
    }
    push_str(out, "  params ");
    if proto.variadic && proto.params > 0 {
        let t = nat_to_text((proto.params - 1) as u64);
        push_str(out, t.as_str());
        push_str(out, " &rest");
    } else {
        let t = nat_to_text(proto.params as u64);
        push_str(out, t.as_str());
    }
    push_str(out, "  slots ");
    let t = nat_to_text(proto.slots as u64);
    push_str(out, t.as_str());
    push_char(out, '\n');
    proof {
        assert(out@ =~= old(out)@ + header_text(idx as nat, *proto, interner@));
    }
}

/// A proto's constant pool, where it has one.
fn push_consts<P: Platform>(out: &mut String, proto: &Proto, interner: &Interner, p: &P)
    ensures
        (forall|k: int|
            0 <= k < proto.consts@.len() ==> crate::printer::printable(#[trigger] proto.consts@[k], interner@.len()))
            ==> final(out)@ == old(out)@ + (if proto.consts@.len() > 0 {
            "  constants\n"@ + const_lines(proto.consts@, interner@, proto.consts@.len())
        } else {
            Seq::empty()
        }),
{
    if proto.consts.len() > 0 {
        let ghost fine = forall|k: int|
            0 <= k < proto.consts@.len() ==> crate::printer::printable(#[trigger] proto.consts@[k], interner@.len());
        push_str(out, "  constants\n");
        let ghost start = out@;
        let mut k: usize = 0;
        while k < proto.consts.len()
            invariant
                k <= proto.consts@.len(),
                fine ==> out@ == start + const_lines(proto.consts@, interner@, k as nat),
                fine == forall|k: int|
                    0 <= k < proto.consts@.len() ==> crate::printer::printable(
                        #[trigger] proto.consts@[k],
                        interner@.len(),
                    ),
            decreases proto.consts@.len() - k,
        {
            push_str(out, "    k");
            let t = nat_to_text(k as u64);
            push_str(out, t.as_str());
            push_str(out, "  ");
            let v = printer::print(&proto.consts[k], interner, p);
            push_str(out, v.as_str());
            push_char(out, '\n');
            proof {
                if fine {
                    assert(crate::printer::printable(proto.consts@[k as int], interner@.len()));
                    assert(out@ =~= start + const_lines(proto.consts@, interner@, (k + 1) as nat));
                }
            }
            k = k + 1;
        }
        proof {
            if fine {
                assert(out@ =~= old(out)@ + "  constants\n"@ + const_lines(
                    proto.consts@,
                    interner@,
                    proto.consts@.len(),
                ));
            }
        }
    }
}

/// A proto's capture list, where it has one.
fn push_captures(out: &mut String, proto: &Proto)
    ensures
        final(out)@ == old(out)@ + (if proto.captures@.len() > 0 {
            "  captures\n"@ + capture_lines(proto.captures@, proto.captures@.len())
        } else {
            Seq::empty()
        }),
{
    if proto.captures.len() > 0 {
        push_str(out, "  captures\n");
        let ghost start = out@;
        let mut c: usize = 0;
        while c < proto.captures.len()
            invariant
                c <= proto.captures@.len(),
                out@ == start + capture_lines(proto.captures@, c as nat),
            decreases proto.captures@.len() - c,
        {
            push_str(out, "    c");
            let t = nat_to_text(c as u64);
            push_str(out, t.as_str());
            push_str(out, "  ");
            let ghost before_src = out@;
            match proto.captures[c] {
                CaptureSrc::Local(slot) => {
                    push_str(out, "local ");
                    push_reg(out, slot);
                },
                CaptureSrc::Capture(ci) => {
                    push_str(out, "capture c");
                    let t = nat_to_text(ci as u64);
                    push_str(out, t.as_str());
                },
                CaptureSrc::SelfFn => push_str(out, "self"),
            }
            proof {
                assert(out@ =~= before_src + capture_text(proto.captures@[c as int]));
            }
            push_char(out, '\n');
            proof {
                assert(out@ =~= start + capture_lines(proto.captures@, (c + 1) as nat));
            }
            c = c + 1;
        }
        proof {
            assert(out@ =~= old(out)@ + "  captures\n"@ + capture_lines(proto.captures@, proto.captures@.len()));
        }
    }
}

/// A number, zero-padded to four digits.
fn push_pad4(out: &mut String, n: usize)
    ensures
        final(out)@ == old(out)@ + pad4(n as nat),
{
    let t = nat_to_text(n as u64);
    if n < 10 {
        push_str(out, "000");
    } else if n < 100 {
        push_str(out, "00");
    } else if n < 1000 {
        push_str(out, "0");
    }
    push_str(out, t.as_str());
    proof {
        lemma_digit_count(n as nat);
        reveal_strlit("000");
        reveal_strlit("00");
        reveal_strlit("0");
        assert(out@ =~= old(out)@ + pad4(n as nat));
    }
}

/// The line for the instruction at `pc`.
#[verifier::rlimit(40)]
fn push_code_line(out: &mut String, pc: usize, proto: &Proto, interner: &Interner, src: &str)
    requires
        src@.len() < usize::MAX,
        pc < proto.code@.len(),
    ensures
        final(out)@ == old(out)@ + code_line(pc as nat, *proto, interner@, src@),
{
    let (mnemonic, operands) = render(&proto.code[pc], interner);
    push_str(out, "    ");
    push_pad4(out, pc);
    push_str(out, "  ");
    push_padded(out, mnemonic, 11);
    push_char(out, ' ');
    push_padded(out, operands.as_str(), 22);
    push_char(out, ' ');
    let at = if pc < proto.lines.len() {
        proto.lines[pc]
    } else {
        SpanOrigin::Unknown
    };
    let pos = position(at, src);
    push_str(out, pos.as_str());
    push_char(out, '\n');
    proof {
        assert(out@ =~= old(out)@ + code_line(pc as nat, *proto, interner@, src@));
    }
}

} // verus!
