//! The VM: frames, calls, closures, tail calls, and the handler stack.
//!
//! The dispatch loop is flat: the Rust stack is empty at every instruction
//! boundary, and nothing here recurses. A native function is called and
//! returns; it never re-enters the loop.
//!
//! `Vm` and `Execution` are separate: an `Image` is one of each, so anything
//! in neither is out of a snapshot's scope by construction.

use crate::bytecode::{CaptureSrc, Chunk, Instr, Proto};
use crate::error::{line_col, SpanOrigin};
use crate::host::{io_kind_index, io_kind_name, io_op_index, io_op_name, Host, IoKind, IoOp};
use crate::platform::Platform;
use crate::prim::{prim_arity_spec, prim_at, prim_name, PRIM_COUNT};
use crate::text::{cat, cat3, copy_str, nat_digits, nat_to_text, push_str};
use crate::value::{
    grows, kind_name, last_index_of, lemma_intern_names, CellId, Closure, HandleId, Interner, KwId, NativeId, StrObj, SymId, Value,
};
use std::rc::Rc;
use vstd::prelude::*;

verus! {

/// How a run ended. A fault the VM raises unwinds exactly as `throw` does,
/// so `Threw` is the whole failure path.
#[derive(Debug)]
pub enum Outcome {
    Returned(Value),
    Threw(Unwind),
    /// Fuel ran out at an instruction boundary. The state is the
    /// `Execution`, which the caller holds.
    Suspended,
}

/// A failure in flight. The value is what a `catch` binds; the origin and
/// the chain of displaced failures travel beside it.
#[derive(Debug)]
pub struct Unwind {
    pub value: Value,
    /// The instruction that raised it.
    pub origin: SpanOrigin,
    /// Failures this one displaced, newest first.
    pub suppressed: Vec<Value>,
}

impl Unwind {
    pub fn new(value: Value, origin: SpanOrigin) -> (r: Unwind)
        ensures
            r.value == value,
            r.origin == origin,
            r.suppressed@.len() == 0,
    {
        Unwind { value, origin, suppressed: Vec::new() }
    }

    /// `path:line:col` for the instruction that raised it, where known.
    pub fn position(&self, path: &str, src: &str) -> (r: Option<String>)
        requires
            src@.len() < usize::MAX,
        ensures
            r is Some <==> self.origin.spec_span() is Some,
    {
        match self.origin.span() {
            None => None,
            Some(s) => {
                let (line, col) = line_col(src, s.start as usize);
                let mut out = copy_str(path);
                push_str(&mut out, ":");
                let l = nat_to_text(line as u64);
                push_str(&mut out, l.as_str());
                push_str(&mut out, ":");
                let c = nat_to_text(col as u64);
                push_str(&mut out, c.as_str());
                Some(out)
            },
        }
    }

    /// Take over a failure this one displaced, chain and all.
    fn suppress(&mut self, other: Unwind)
        ensures
            final(self).value == old(self).value,
            final(self).origin == old(self).origin,
            final(self).suppressed@ == old(self).suppressed@.push(other.value) + other.suppressed@,
    {
        self.suppressed.push(other.value);
        let mut rest = other.suppressed;
        self.suppressed.append(&mut rest);
    }
}

/// The closed `:kind` vocabulary for `:type :vm-error`.
#[derive(Clone, Copy, PartialEq, Eq, Debug, Structural)]
pub enum Kind {
    Arity,
    Unbound,
    NotCallable,
    Type,
    Overflow,
    /// Integer division by zero. Floats reach `##Inf` instead.
    DivideByZero,
    /// A decision the language has deliberately not taken, reached at run
    /// time.
    Undecided,
    /// A VM invariant no program should be able to reach.
    Internal,
}

pub open spec fn kind_index(k: Kind) -> int {
    match k {
        Kind::Arity => 0,
        Kind::Unbound => 1,
        Kind::NotCallable => 2,
        Kind::Type => 3,
        Kind::Overflow => 4,
        Kind::DivideByZero => 5,
        Kind::Undecided => 6,
        Kind::Internal => 7,
    }
}

pub open spec fn kind_name_of(k: Kind) -> &'static str {
    match k {
        Kind::Arity => "arity",
        Kind::Unbound => "unbound",
        Kind::NotCallable => "not-callable",
        Kind::Type => "type",
        Kind::Overflow => "overflow",
        Kind::DivideByZero => "divide-by-zero",
        Kind::Undecided => "undecided",
        Kind::Internal => "internal",
    }
}

/// No two fault kinds share a name.
pub proof fn lemma_kind_names_distinct(a: Kind, b: Kind)
    requires
        a != b,
    ensures
        kind_name_of(a)@ != kind_name_of(b)@,
{
    reveal_strlit("arity");
    reveal_strlit("unbound");
    reveal_strlit("not-callable");
    reveal_strlit("type");
    reveal_strlit("overflow");
    reveal_strlit("divide-by-zero");
    reveal_strlit("undecided");
    reveal_strlit("internal");
    let (x, y) = (kind_name_of(a)@, kind_name_of(b)@);
    assert(x.len() != y.len() || x[0] != y[0]);
}

impl Kind {
    pub fn all() -> (r: [Kind; 8])
        ensures
            forall|i: int| 0 <= i < 8 ==> kind_index(#[trigger] r@[i]) == i,
    {
        [
            Kind::Arity,
            Kind::Unbound,
            Kind::NotCallable,
            Kind::Type,
            Kind::Overflow,
            Kind::DivideByZero,
            Kind::Undecided,
            Kind::Internal,
        ]
    }

    pub fn index(self) -> (r: usize)
        ensures
            r == kind_index(self),
            r < 8,
    {
        match self {
            Kind::Arity => 0,
            Kind::Unbound => 1,
            Kind::NotCallable => 2,
            Kind::Type => 3,
            Kind::Overflow => 4,
            Kind::DivideByZero => 5,
            Kind::Undecided => 6,
            Kind::Internal => 7,
        }
    }

    pub fn name(self) -> (r: &'static str)
        ensures
            r == kind_name_of(self),
    {
        match self {
            Kind::Arity => "arity",
            Kind::Unbound => "unbound",
            Kind::NotCallable => "not-callable",
            Kind::Type => "type",
            Kind::Overflow => "overflow",
            Kind::DivideByZero => "divide-by-zero",
            Kind::Undecided => "undecided",
            Kind::Internal => "internal",
        }
    }
}

/// A fault before it has a position. Natives raise these; the dispatch loop
/// turns one into an `Unwind` at the instruction that raised it.
#[derive(Debug)]
pub enum Fault {
    Vm { kind: Kind, msg: String },
    Io { op: IoOp, path: Option<String>, kind: IoKind, msg: String },
}

pub fn fault(kind: Kind, msg: String) -> (f: Fault)
    ensures
        f matches Fault::Vm { kind: k, msg: m } && k == kind && m@ == msg@,
{
    Fault::Vm { kind, msg }
}

/// The primitives. Each is an ordinary global, called through the ordinary
/// `Call`.
#[derive(Clone, Copy, PartialEq, Eq, Debug, Structural)]
pub enum Prim {
    Add,
    Mul,
    Sub,
    Div,
    Quot,
    Rem,
    Lt,
    Gt,
    Le,
    Ge,
    NumEq,
    Eq,
    NotEq,
    Not,
    Count,
    First,
    Rest,
    Nth,
    Get,
    Contains,
    Empty,
    Conj,
    Assoc,
    Dissoc,
    Keys,
    Vals,
    MakeCell,
    CellGet,
    Str,
    StrLen,
    StrSlice,
    ParseNumber,
    StrScalars,
    ScalarsStr,
    StrBytes,
    BytesStr,
    BytesLen,
    Println,
    Gensym,
    List,
    Concat,
    ToVec,
    Vector,
    HashMap,
    IoOpen,
    IoClose,
    IoIsOpen,
    IoRead,
    IoReadAll,
    IoWrite,
    /// A primitive the host added, by its number.
    Adapter(u32),
}

/// A native: a name, an arity, and what it runs.
#[derive(Debug)]
pub struct Native {
    pub name: SymId,
    /// Minimum argument count; `variadic` allows more.
    pub min: u32,
    pub variadic: bool,
    pub prim: Prim,
}

/// Cells live as long as the VM; the live count is measured, not
/// reclaimed.
#[derive(Debug)]
pub struct CellEntry {
    pub generation: u32,
    pub value: Value,
}

/// Handles are generational, so a stale handle is an error rather than a
/// silent alias. The slot outlives its resource so a stale id can still be
/// recognised as stale.
#[derive(Debug)]
pub struct HandleEntry {
    pub generation: u32,
    pub host: Option<Host>,
}

/// The generation a slot takes when it is reused: one more, wrapping.
pub open spec fn next_generation(g: u32) -> u32 {
    if g < u32::MAX {
        (g + 1) as u32
    } else {
        0
    }
}

/// The handle table: entries, and the indices whose resource has been
/// closed, available for reuse under a bumped generation.
#[derive(Debug)]
pub struct HandleTable {
    entries: Vec<HandleEntry>,
    free: Vec<u32>,
}

impl HandleTable {
    /// The free list names closed slots, each once.
    #[verifier::type_invariant]
    spec fn wf(&self) -> bool {
        &&& forall|i: int|
            0 <= i < self.free@.len() ==> (#[trigger] self.free@[i]) < self.entries@.len()
                && self.entries@[self.free@[i] as int].host is None
        &&& forall|i: int, j: int| 0 <= i < j < self.free@.len() ==> self.free@[i] != self.free@[j]
    }

    /// The resource `id` names, if it is live: open, and not stale.
    pub closed spec fn host_spec(&self, id: HandleId) -> Option<Host> {
        if id.0 < self.entries@.len() && self.entries@[id.0 as int].generation == id.1 {
            self.entries@[id.0 as int].host
        } else {
            None
        }
    }

    /// `id` names the current generation of a slot, open or closed.
    pub closed spec fn current(&self, id: HandleId) -> bool {
        id.0 < self.entries@.len() && self.entries@[id.0 as int].generation == id.1
    }

    pub closed spec fn slots(&self) -> nat {
        self.entries@.len()
    }

    /// The generation of each slot, in index order.
    pub closed spec fn gens_view(&self) -> Seq<u32> {
        self.entries@.map_values(|e: HandleEntry| e.generation)
    }

    /// The resource in each slot, in index order.
    pub closed spec fn hosts_view(&self) -> Seq<Option<Host>> {
        self.entries@.map_values(|e: HandleEntry| e.host)
    }

    /// The closed slots available for reuse, the last one first.
    pub closed spec fn free_view(&self) -> Seq<u32> {
        self.free@
    }

    /// Two tables with the same slots and free list name the same resources.
    pub proof fn lemma_same_table(a: &HandleTable, b: &HandleTable)
        requires
            a.gens_view() == b.gens_view(),
            a.hosts_view() == b.hosts_view(),
        ensures
            forall|id: HandleId| #[trigger] a.host_spec(id) == b.host_spec(id) && a.current(id) == b.current(id),
            a.slots() == b.slots(),
    {
        assert(a.entries@.len() == a.gens_view().len());
        assert(b.entries@.len() == b.gens_view().len());
        assert forall|id: HandleId| #[trigger] a.host_spec(id) == b.host_spec(id) && a.current(id) == b.current(id) by {
            if id.0 < a.entries@.len() {
                assert(a.gens_view()[id.0 as int] == a.entries@[id.0 as int].generation);
                assert(b.gens_view()[id.0 as int] == b.entries@[id.0 as int].generation);
                assert(a.hosts_view()[id.0 as int] == a.entries@[id.0 as int].host);
                assert(b.hosts_view()[id.0 as int] == b.entries@[id.0 as int].host);
            }
        }
    }

    pub fn new() -> (r: HandleTable)
        ensures
            r.slots() == 0,
            r.gens_view().len() == 0,
            r.hosts_view().len() == 0,
            r.free_view().len() == 0,
            forall|id: HandleId| #[trigger] r.host_spec(id) is None,
    {
        HandleTable { entries: Vec::new(), free: Vec::new() }
    }

    /// Take an index from the free list before growing, so a program that
    /// opens and closes in a loop occupies a bounded number of slots. The
    /// generation is bumped on reuse, never on release, so closing twice is a
    /// no-op rather than an aliasing error.
    pub fn open(&mut self, host: Host) -> (r: HandleId)
        ensures
            old(self).free_view().len() > 0 ==> {
                &&& r.0 == old(self).free_view().last()
                &&& r.1 == next_generation(old(self).gens_view()[r.0 as int])
                &&& final(self).free_view() == old(self).free_view().drop_last()
                &&& final(self).gens_view() == old(self).gens_view().update(r.0 as int, r.1)
                &&& final(self).hosts_view() == old(self).hosts_view().update(r.0 as int, Some(host))
            },
            old(self).free_view().len() == 0 ==> {
                &&& r == HandleId(old(self).slots() as u32, 0)
                &&& final(self).free_view() == old(self).free_view()
                &&& final(self).gens_view() == old(self).gens_view().push(0)
                &&& final(self).hosts_view() == old(self).hosts_view().push(Some(host))
            },
            old(self).slots() < u32::MAX ==> final(self).host_spec(r) == Some(host),
            old(self).slots() < u32::MAX ==> forall|other: HandleId|
                #![trigger final(self).host_spec(other)]
                other != r ==> final(self).host_spec(other) == old(self).host_spec(other),
    {
        let mut t = HandleTable { entries: Vec::new(), free: Vec::new() };
        core::mem::swap(&mut t, self);
        proof {
            use_type_invariant(&t);
        }
        let ghost start = t;
        let HandleTable { mut entries, mut free } = t;
        let r = match free.pop() {
            Some(i) => {
                let ghost freed = free@;
                proof {
                    assert(start.free@ == freed.push(i));
                    assert(start.free@[freed.len() as int] == i);
                }
                let g = entries[i as usize].generation;
                let generation = if g < u32::MAX {
                    g + 1
                } else {
                    0
                };
                entries.set(i as usize, HandleEntry { generation, host: Some(host) });
                proof {
                    assert forall|k: int| 0 <= k < free@.len() implies (#[trigger] free@[k])
                        < entries@.len() && entries@[free@[k] as int].host is None by {
                        assert(start.free@[k] == free@[k]);
                        assert(free@[k] != i);
                    }
                    assert forall|a: int, b: int| 0 <= a < b < free@.len() implies free@[a] != free@[b] by {
                        assert(start.free@[a] == free@[a]);
                        assert(start.free@[b] == free@[b]);
                    }
                }
                HandleId(i, generation)
            },
            None => {
                let at = entries.len();
                entries.push(HandleEntry { generation: 0, host: Some(host) });
                HandleId(#[verifier::truncate] (at as u32), 0)
            },
        };
        *self = HandleTable { entries, free };
        proof {
            if start.entries@.len() < u32::MAX {
                assert forall|other: HandleId| other != r implies #[trigger] self.host_spec(other)
                    == start.host_spec(other) by {
                    if other.0 == r.0 && start.free@.len() > 0 {
                        assert(start.free@[start.free@.len() - 1] == r.0);
                        assert(start.entries@[r.0 as int].host is None);
                    }
                }
            }
        }
        r
    }

    pub fn host(&self, id: HandleId) -> (r: Option<Host>)
        ensures
            r == self.host_spec(id),
    {
        let i = id.0 as usize;
        if i < self.entries.len() && self.entries[i].generation == id.1 {
            self.entries[i].host
        } else {
            None
        }
    }

    /// `id` names the current generation of its slot: the one `gens_view`
    /// records there.
    pub proof fn lemma_current(&self, id: HandleId)
        ensures
            self.current(id) == (id.0 < self.gens_view().len() && self.gens_view()[id.0 as int] == id.1),
            self.gens_view().len() == self.slots(),
            self.hosts_view().len() == self.slots(),
            self.open_spec() == (if self.free_view().len() <= self.slots() {
                (self.slots() - self.free_view().len()) as nat
            } else {
                0
            }),
    {
    }

    /// Release what `id` names. The first part says whether `id` names the
    /// slot's current generation (closing twice is fine; closing through a
    /// stale id is not); the second is the resource released, if one was.
    pub fn close(&mut self, id: HandleId) -> (r: (bool, Option<Host>))
        ensures
            r.0 == old(self).current(id),
            r.1 == old(self).host_spec(id),
            final(self).host_spec(id) is None,
            final(self).gens_view() == old(self).gens_view(),
            r.1 is Some ==> final(self).free_view() == old(self).free_view().push(id.0)
                && final(self).hosts_view() == old(self).hosts_view().update(id.0 as int, None),
            r.1 is None ==> final(self).free_view() == old(self).free_view() && final(self).hosts_view()
                == old(self).hosts_view(),
            forall|other: HandleId|
                #![trigger final(self).host_spec(other)]
                other.0 != id.0 ==> final(self).host_spec(other) == old(self).host_spec(other),
    {
        proof {
            use_type_invariant(&*self);
        }
        let i = id.0 as usize;
        if i >= self.entries.len() {
            return (false, None);
        }
        if self.entries[i].generation != id.1 {
            return (false, None);
        }
        match self.entries[i].host {
            Some(h) => {
                let mut t = HandleTable { entries: Vec::new(), free: Vec::new() };
                core::mem::swap(&mut t, self);
                let ghost start = t;
                let HandleTable { mut entries, mut free } = t;
                let generation = entries[i].generation;
                let ghost before = free@;
                proof {
                    assert forall|k: int| 0 <= k < before.len() implies before[k] != id.0 by {
                        assert(start.entries@[before[k] as int].host is None);
                    }
                }
                entries.set(i, HandleEntry { generation, host: None });
                free.push(id.0);
                proof {
                    assert forall|a: int, b: int| 0 <= a < b < free@.len() implies free@[a] != free@[b] by {
                        if b == before.len() {
                            assert(free@[b] == id.0);
                            assert(free@[a] == before[a]);
                        } else {
                            assert(free@[a] == before[a]);
                            assert(free@[b] == before[b]);
                        }
                    }
                    assert forall|k: int| 0 <= k < free@.len() implies (#[trigger] free@[k])
                        < entries@.len() && entries@[free@[k] as int].host is None by {
                        if k < before.len() {
                            assert(free@[k] == before[k]);
                        }
                    }
                }
                *self = HandleTable { entries, free };
                (true, Some(h))
            },
            None => (true, None),
        }
    }

    /// How many slots are open: the table less its free list.
    pub closed spec fn open_spec(&self) -> nat {
        if self.free@.len() <= self.entries@.len() {
            (self.entries@.len() - self.free@.len()) as nat
        } else {
            0
        }
    }

    /// How many slots name a resource: the table less its free list.
    pub fn open_count(&self) -> (r: usize)
        ensures
            r == self.open_spec(),
            self.free_view().len() <= self.slots() ==> r == self.slots() - self.free_view().len(),
    {
        if self.free.len() <= self.entries.len() {
            self.entries.len() - self.free.len()
        } else {
            0
        }
    }

    /// The generation of every slot, in index order.
    pub fn generations(&self) -> (r: Vec<u32>)
        ensures
            r@ == self.gens_view(),
    {
        let mut out: Vec<u32> = Vec::new();
        let mut i: usize = 0;
        while i < self.entries.len()
            invariant
                i <= self.entries@.len(),
                out@ == self.entries@.take(i as int).map_values(|e: HandleEntry| e.generation),
            decreases self.entries@.len() - i,
        {
            proof {
                assert(self.entries@.take(i + 1) == self.entries@.take(i as int).push(self.entries@[i as int]));
            }
            out.push(self.entries[i].generation);
            i = i + 1;
        }
        proof {
            assert(self.entries@.take(i as int) == self.entries@);
        }
        out
    }

    /// The free list, which always names closed slots of this table, each
    /// once.
    pub fn free_list(&self) -> (r: Vec<u32>)
        ensures
            r@ == self.free_view(),
            free_ok(self.gens_view(), self.hosts_view(), r@),
    {
        proof {
            use_type_invariant(self);
        }
        let mut out: Vec<u32> = Vec::new();
        let mut i: usize = 0;
        while i < self.free.len()
            invariant
                i <= self.free@.len(),
                out@ == self.free@.take(i as int),
            decreases self.free@.len() - i,
        {
            proof {
                assert(self.free@.take(i + 1) == self.free@.take(i as int).push(self.free@[i as int]));
            }
            out.push(self.free[i]);
            i = i + 1;
        }
        proof {
            assert(self.free@.take(i as int) == self.free@);
            assert forall|a: int| 0 <= a < out@.len() implies (#[trigger] out@[a]) < self.gens_view().len()
                && self.hosts_view()[out@[a] as int] is None by {
                assert(self.free@[a] < self.entries@.len());
            }
        }
        out
    }

    /// The resource in each slot, in index order.
    pub fn hosts(&self) -> (r: Vec<Option<Host>>)
        ensures
            r@ == self.hosts_view(),
    {
        let mut out: Vec<Option<Host>> = Vec::new();
        let mut i: usize = 0;
        while i < self.entries.len()
            invariant
                i <= self.entries@.len(),
                out@ == self.entries@.take(i as int).map_values(|e: HandleEntry| e.host),
            decreases self.entries@.len() - i,
        {
            proof {
                assert(self.entries@.take(i + 1) == self.entries@.take(i as int).push(self.entries@[i as int]));
            }
            out.push(self.entries[i].host);
            i = i + 1;
        }
        proof {
            assert(self.entries@.take(i as int) == self.entries@);
        }
        out
    }

    /// The table with the given generations, resources and free list; `None`
    /// where the free list names a slot that is out of range, open, or named
    /// twice.
    pub fn rebuild(gens: &Vec<u32>, hosts: &Vec<Option<Host>>, free: &Vec<u32>) -> (r: Option<HandleTable>)
        requires
            hosts@.len() == gens@.len(),
        ensures
            r is Some <==> free_ok(gens@, hosts@, free@),
            r matches Some(t) ==> t.gens_view() == gens@ && t.hosts_view() == hosts@ && t.free_view() == free@,
    {
        let mut entries: Vec<HandleEntry> = Vec::new();
        let mut i: usize = 0;
        while i < gens.len()
            invariant
                i <= gens@.len(),
                hosts@.len() == gens@.len(),
                entries@.len() == i,
                forall|k: int| 0 <= k < i ==> (#[trigger] entries@[k]).generation == gens@[k]
                    && entries@[k].host == hosts@[k],
            decreases gens@.len() - i,
        {
            entries.push(HandleEntry { generation: gens[i], host: hosts[i] });
            i = i + 1;
        }
        let ghost es = entries@;
        proof {
            assert(es.map_values(|e: HandleEntry| e.generation) == gens@);
            assert(es.map_values(|e: HandleEntry| e.host) == hosts@);
        }
        let mut f: Vec<u32> = Vec::new();
        let mut k: usize = 0;
        while k < free.len()
            invariant
                k <= free@.len(),
                entries@ == es,
                es.len() == gens@.len(),
                hosts@.len() == gens@.len(),
                forall|j: int| 0 <= j < gens@.len() ==> (#[trigger] es[j]).host == hosts@[j],
                f@ == free@.take(k as int),
                forall|a: int| 0 <= a < f@.len() ==> (#[trigger] f@[a]) < entries@.len()
                    && entries@[f@[a] as int].host is None,
                forall|a: int, b: int| 0 <= a < b < f@.len() ==> f@[a] != f@[b],
            decreases free@.len() - k,
        {
            let x = free[k];
            if (x as usize) >= entries.len() || entries[x as usize].host.is_some() {
                proof {
                    assert(free@[k as int] == x);
                }
                return None;
            }
            let mut j: usize = 0;
            while j < f.len()
                invariant
                    j <= f@.len(),
                    k < free@.len(),
                    f@ == free@.take(k as int),
                    x == free@[k as int],
                    forall|a: int| 0 <= a < j ==> f@[a] != x,
                decreases f@.len() - j,
            {
                if f[j] == x {
                    proof {
                        assert(free@[j as int] == f@[j as int]);
                    }
                    return None;
                }
                j = j + 1;
            }
            proof {
                assert(free@.take(k + 1) == free@.take(k as int).push(x));
            }
            f.push(x);
            k = k + 1;
        }
        proof {
            assert(free@.take(k as int) == free@);
        }
        Some(HandleTable { entries, free: f })
    }
}

/// A free list that names closed slots of a table, each once.
pub open spec fn free_ok(gens: Seq<u32>, hosts: Seq<Option<Host>>, free: Seq<u32>) -> bool {
    &&& hosts.len() == gens.len()
    &&& forall|a: int| 0 <= a < free.len() ==> (#[trigger] free[a]) < gens.len() && hosts[free[a] as int] is None
    &&& forall|a: int, b: int| 0 <= a < b < free.len() ==> free[a] != free[b]
}

/// The keywords a fault value is built from, interned once.
/// The keywords a fault is thrown with: its keys, its `:type`s, and every
/// `:kind` and `:operation` it can carry.
#[derive(Debug)]
pub struct Kws {
    pub type_: KwId,
    pub kind: KwId,
    pub message: KwId,
    pub vm_error: KwId,
    pub kinds: [KwId; 8],
    pub io_error: KwId,
    pub operation: KwId,
    pub path: KwId,
    pub io_kinds: [KwId; 9],
    pub io_ops: [KwId; 9],
}

/// `(k, s)` is a pair whose key is keyword `k` and whose value is a string
/// spelling `text`.
pub open spec fn text_entry(e: (Value, Value), k: KwId, text: Seq<char>) -> bool {
    &&& e.0 == Value::Keyword(k)
    &&& e.1 matches Value::Str(s) && s.0@ == text
}

/// `v` is the map a VM fault of `kind` is thrown as:
/// `{:type :vm-error, :kind <kind>, :message <msg>}`.
pub open spec fn vm_fault_map(kws: Kws, kind: Kind, msg: Seq<char>, v: Value) -> bool {
    &&& v matches Value::Dict(m)
    &&& m@.len() == 3
    &&& m@[0] == (Value::Keyword(kws.type_), Value::Keyword(kws.vm_error))
    &&& m@[1] == (Value::Keyword(kws.kind), Value::Keyword(kws.kinds@[kind_index(kind)]))
    &&& text_entry(m@[2], kws.message, msg)
}

/// `v` is a VM fault of `kind`, whatever its message.
pub open spec fn raised_kind(kws: Kws, kind: Kind, v: Value) -> bool {
    &&& v matches Value::Dict(m)
    &&& m@.len() == 3
    &&& m@[0] == (Value::Keyword(kws.type_), Value::Keyword(kws.vm_error))
    &&& m@[1] == (Value::Keyword(kws.kind), Value::Keyword(kws.kinds@[kind_index(kind)]))
}

/// `v` is the map an io fault is thrown as: `:type :io-error`, the
/// operation, the path when the operation names one, the kind, and the
/// message.
pub open spec fn io_fault_map(
    kws: Kws,
    op: IoOp,
    path: Option<Seq<char>>,
    kind: IoKind,
    msg: Seq<char>,
    v: Value,
) -> bool {
    let n: int = if path is Some {
        1
    } else {
        0
    };
    &&& v matches Value::Dict(m)
    &&& m@.len() == 4 + n
    &&& m@[0] == (Value::Keyword(kws.type_), Value::Keyword(kws.io_error))
    &&& m@[1] == (Value::Keyword(kws.operation), Value::Keyword(kws.io_ops@[io_op_index(op)]))
    &&& path matches Some(p) ==> text_entry(m@[2], kws.path, p)
    &&& m@[2 + n] == (Value::Keyword(kws.kind), Value::Keyword(kws.io_kinds@[io_kind_index(kind)]))
    &&& text_entry(m@[3 + n], kws.message, msg)
}

/// `v` is the map fault `f` is thrown as.
pub open spec fn fault_map(kws: Kws, f: Fault, v: Value) -> bool {
    match f {
        Fault::Vm { kind, msg } => vm_fault_map(kws, kind, msg@, v),
        Fault::Io { op, path, kind, msg } => io_fault_map(
            kws,
            op,
            match path {
                Some(p) => Some(p@),
                None => None,
            },
            kind,
            msg@,
            v,
        ),
    }
}

pub struct Vm<P: Platform> {
    pub interner: Interner,
    /// The host this VM computes floats and performs io through.
    pub platform: P,
    /// Indexed by symbol id, so nothing about globals depends on hashing.
    pub globals: Vec<Option<CellId>>,
    pub cells: Vec<CellEntry>,
    pub handles: HandleTable,
    pub natives: Vec<Native>,
    pub kws: Kws,
    /// Reset per compilation unit by the expander, never here.
    pub gensym: u64,
    /// The buffered host's output: emitted effects are part of what a run
    /// produces.
    pub out: String,
    /// The identity the next closure created receives.
    pub fn_ids: u64,
}

/// Keyword `k` spells `text` in the table `names`.
pub open spec fn spells(names: Seq<Seq<char>>, k: KwId, text: Seq<char>) -> bool {
    (k.0 as int) < names.len() && names[k.0 as int] == text
}

/// Intern one keyword name into a table with room for it.
fn intern_kw(interner: &mut Interner, name: &str) -> (r: KwId)
    requires
        old(interner)@.len() < u32::MAX,
    ensures
        grows(old(interner)@, final(interner)@),
        final(interner)@.len() <= old(interner)@.len() + 1,
        spells(final(interner)@, r, name@),
{
    let ghost before = interner@;
    let id = interner.intern(name);
    proof {
        crate::value::lemma_intern_names(before, name@, id, interner@);
    }
    KwId(id)
}

/// The keywords of the VM fault kinds, in `Kind::index` order.
#[verifier::rlimit(40)]
fn intern_kinds(interner: &mut Interner) -> (r: [KwId; 8])
    requires
        old(interner)@.len() + 8 < u32::MAX,
    ensures
        grows(old(interner)@, final(interner)@),
        final(interner)@.len() <= old(interner)@.len() + 8,
        forall|k: Kind| #[trigger] spells(final(interner)@, r@[kind_index(k) as int], kind_name_of(k)@),
{
    let ks = Kind::all();
    let r = [
        intern_kw(interner, ks[0].name()),
        intern_kw(interner, ks[1].name()),
        intern_kw(interner, ks[2].name()),
        intern_kw(interner, ks[3].name()),
        intern_kw(interner, ks[4].name()),
        intern_kw(interner, ks[5].name()),
        intern_kw(interner, ks[6].name()),
        intern_kw(interner, ks[7].name()),
    ];
    proof {
        assert forall|k: Kind| #[trigger] spells(interner@, r@[kind_index(k) as int], kind_name_of(k)@) by {
            assert(ks@[kind_index(k) as int] == k);
        }
    }
    r
}

/// The keywords of the I/O fault kinds, in `IoKind::index` order.
#[verifier::rlimit(40)]
fn intern_io_kinds(interner: &mut Interner) -> (r: [KwId; 9])
    requires
        old(interner)@.len() + 9 < u32::MAX,
    ensures
        grows(old(interner)@, final(interner)@),
        final(interner)@.len() <= old(interner)@.len() + 9,
        forall|k: IoKind| #[trigger] spells(final(interner)@, r@[io_kind_index(k) as int], io_kind_name(k)@),
{
    let iks = IoKind::all();
    let r = [
        intern_kw(interner, iks[0].name()),
        intern_kw(interner, iks[1].name()),
        intern_kw(interner, iks[2].name()),
        intern_kw(interner, iks[3].name()),
        intern_kw(interner, iks[4].name()),
        intern_kw(interner, iks[5].name()),
        intern_kw(interner, iks[6].name()),
        intern_kw(interner, iks[7].name()),
        intern_kw(interner, iks[8].name()),
    ];
    proof {
        assert forall|k: IoKind| #[trigger] spells(interner@, r@[io_kind_index(k) as int], io_kind_name(k)@) by {
            assert(iks@[io_kind_index(k) as int] == k);
        }
    }
    r
}

/// The keywords of the I/O operations, in `IoOp::index` order.
#[verifier::rlimit(40)]
fn intern_io_ops(interner: &mut Interner) -> (r: [KwId; 9])
    requires
        old(interner)@.len() + 9 < u32::MAX,
    ensures
        grows(old(interner)@, final(interner)@),
        final(interner)@.len() <= old(interner)@.len() + 9,
        forall|k: IoOp| #[trigger] spells(final(interner)@, r@[io_op_index(k) as int], io_op_name(k)@),
{
    let ios = IoOp::all();
    let r = [
        intern_kw(interner, ios[0].name()),
        intern_kw(interner, ios[1].name()),
        intern_kw(interner, ios[2].name()),
        intern_kw(interner, ios[3].name()),
        intern_kw(interner, ios[4].name()),
        intern_kw(interner, ios[5].name()),
        intern_kw(interner, ios[6].name()),
        intern_kw(interner, ios[7].name()),
        intern_kw(interner, ios[8].name()),
    ];
    proof {
        assert forall|k: IoOp| #[trigger] spells(interner@, r@[io_op_index(k) as int], io_op_name(k)@) by {
            assert(ios@[io_op_index(k) as int] == k);
        }
    }
    r
}

/// The keywords faults are built from, interned into a fresh interner:
/// each field is the keyword that spells its name.
fn keywords(interner: &mut Interner) -> (r: Kws)
    requires
        old(interner)@.len() == 0,
    ensures
        final(interner)@.len() <= 33,
        spells(final(interner)@, r.type_, "type"@),
        spells(final(interner)@, r.kind, "kind"@),
        spells(final(interner)@, r.message, "message"@),
        spells(final(interner)@, r.vm_error, "vm-error"@),
        spells(final(interner)@, r.io_error, "io-error"@),
        spells(final(interner)@, r.operation, "operation"@),
        spells(final(interner)@, r.path, "path"@),
        forall|k: Kind| #[trigger] spells(final(interner)@, r.kinds@[kind_index(k) as int], kind_name_of(k)@),
        forall|k: IoKind|
            #[trigger] spells(final(interner)@, r.io_kinds@[io_kind_index(k) as int], io_kind_name(k)@),
        forall|k: IoOp| #[trigger] spells(final(interner)@, r.io_ops@[io_op_index(k) as int], io_op_name(k)@),
{
    let kinds = intern_kinds(interner);
    let ghost after_kinds = interner@;
    let type_ = intern_kw(interner, "type");
    let kind = intern_kw(interner, "kind");
    let message = intern_kw(interner, "message");
    let vm_error = intern_kw(interner, "vm-error");
    let io_error = intern_kw(interner, "io-error");
    let operation = intern_kw(interner, "operation");
    let path = intern_kw(interner, "path");
    let ghost after_words = interner@;
    let io_kinds = intern_io_kinds(interner);
    let ghost after_io_kinds = interner@;
    let io_ops = intern_io_ops(interner);
    proof {
        assert forall|k: Kind| #[trigger] spells(interner@, kinds@[kind_index(k) as int], kind_name_of(k)@) by {
            assert(spells(after_kinds, kinds@[kind_index(k) as int], kind_name_of(k)@));
            assert(grows(after_kinds, after_words));
        }
        assert forall|k: IoKind|
            #[trigger] spells(interner@, io_kinds@[io_kind_index(k) as int], io_kind_name(k)@) by {
            assert(spells(after_io_kinds, io_kinds@[io_kind_index(k) as int], io_kind_name(k)@));
        }
    }
    Kws {
        type_,
        kind,
        message,
        vm_error,
        kinds,
        io_error,
        operation,
        path,
        io_kinds,
        io_ops,
    }
}

impl<P: Platform> Vm<P> {
    /// The value `id` holds, if it names a live cell.
    pub open spec fn cell_spec(&self, id: CellId) -> Option<Value> {
        if id.0 < self.cells@.len() && self.cells@[id.0 as int].generation == id.1 {
            Some(self.cells@[id.0 as int].value)
        } else {
            None
        }
    }

    /// The value global `name` holds, if it has one.
    pub open spec fn global_spec(&self, name: SymId) -> Option<Value> {
        if name.0 < self.globals@.len() && self.globals@[name.0 as int] is Some {
            self.cell_spec(self.globals@[name.0 as int]->Some_0)
        } else {
            None
        }
    }

    /// The resource `id` names, if it is live: open, and not stale.
    pub open spec fn host_spec(&self, id: HandleId) -> Option<Host> {
        self.handles.host_spec(id)
    }

    /// A fresh VM: the keywords faults are built from, the primitives, the
    /// two standard streams, and whatever the host adds.
    pub fn new(platform: P) -> (r: Vm<P>)
        ensures
            r.platform == platform,
            r.natives@.len() >= PRIM_COUNT,
            forall|i: int|
                0 <= i < PRIM_COUNT ==> {
                    let n = #[trigger] r.natives@[i];
                    &&& n.prim == prim_at(i as usize)
                    &&& (n.min, n.variadic) == prim_arity_spec(prim_at(i as usize))
                    &&& r.interner@[n.name.0 as int] == prim_name(prim_at(i as usize))@
                },
            r.handles.gens_view() == seq![0u32, 0u32],
            r.handles.hosts_view() == seq![Some(Host::Stdin), Some(Host::Stdout)],
            r.handles.free_view().len() == 0,
            r.handles.open_spec() == 2,
            r.host_spec(HandleId(0, 0)) == Some(Host::Stdin),
            r.host_spec(HandleId(1, 0)) == Some(Host::Stdout),
    {
        let mut interner = Interner::new();
        let kws = keywords(&mut interner);
        let mut vm = Vm {
            interner,
            platform,
            globals: Vec::new(),
            cells: Vec::new(),
            handles: HandleTable::new(),
            natives: Vec::new(),
            kws,
            gensym: 0,
            out: String::new(),
            fn_ids: 0,
        };
        let ghost empty = vm.natives@.len();
        crate::prim::install(&mut vm);
        let ghost table = vm.natives@;
        let ghost names = vm.interner@;
        assert forall|j: int|
            0 <= j < PRIM_COUNT implies {
                let n = #[trigger] table[j];
                &&& n.prim == prim_at(j as usize)
                &&& (n.min, n.variadic) == prim_arity_spec(prim_at(j as usize))
                &&& n.name.0 < names.len()
                &&& names[n.name.0 as int] == prim_name(prim_at(j as usize))@
            } by {
            assert(table[empty + j] == table[j]);
        }
        crate::host::install(&mut vm);
        let ghost handles = vm.handles;
        proof {
            assert(handles.gens_view().len() == 2);
            assert(handles.gens_view()[0] == handles.entries@[0].generation);
            assert(handles.gens_view()[1] == handles.entries@[1].generation);
            assert(handles.hosts_view()[0] == handles.entries@[0].host);
            assert(handles.hosts_view()[1] == handles.entries@[1].host);
            assert(handles.entries@.len() == 2);
            assert(handles.entries@[0].host == Some(Host::Stdin) && handles.entries@[0].generation == 0);
            assert(handles.entries@[1].host == Some(Host::Stdout) && handles.entries@[1].generation == 0);
        }
        let extra = vm.platform.adapters();
        let mut i: usize = 0;
        while i < extra.len()
            invariant
                vm.platform == platform,
                vm.handles == handles,
                table.len() == PRIM_COUNT,
                vm.natives@.len() >= PRIM_COUNT,
                forall|j: int| 0 <= j < PRIM_COUNT ==> #[trigger] vm.natives@[j] == table[j],
                grows(names, vm.interner@),
                forall|j: int|
                    0 <= j < PRIM_COUNT ==> {
                        let n = #[trigger] table[j];
                        &&& n.prim == prim_at(j as usize)
                        &&& (n.min, n.variadic) == prim_arity_spec(prim_at(j as usize))
                        &&& n.name.0 < names.len()
                        &&& names[n.name.0 as int] == prim_name(prim_at(j as usize))@
                    },
            decreases extra@.len() - i,
        {
            let a = &extra[i];
            vm.native(a.name.as_str(), a.min, a.variadic, Prim::Adapter(#[verifier::truncate] (i as u32)));
            i = i + 1;
        }
        vm
    }

    /// A fault as the language value it is thrown as: a map with `:type`,
    /// `:kind` and `:message`, plus `:operation` and `:path` for io.
    pub fn fault_value(&self, f: &Fault) -> (r: Value)
        ensures
            fault_map(self.kws, *f, r),
    {
        let mut pairs: Vec<(Value, Value)> = Vec::new();
        match f {
            Fault::Vm { kind, msg } => {
                pairs.push((Value::Keyword(self.kws.type_), Value::Keyword(self.kws.vm_error)));
                pairs.push(
                    (Value::Keyword(self.kws.kind), Value::Keyword(self.kws.kinds[kind.index()])),
                );
                pairs.push(
                    (Value::Keyword(self.kws.message), Value::Str(Rc::new(StrObj(copy_str(msg.as_str()))))),
                );
            },
            Fault::Io { op, path, kind, msg } => {
                pairs.push((Value::Keyword(self.kws.type_), Value::Keyword(self.kws.io_error)));
                pairs.push(
                    (Value::Keyword(self.kws.operation), Value::Keyword(self.kws.io_ops[op.index()])),
                );
                // Present only when the operation names one.
                match path {
                    Some(p) => {
                        pairs.push(
                            (
                                Value::Keyword(self.kws.path),
                                Value::Str(Rc::new(StrObj(copy_str(p.as_str())))),
                            ),
                        );
                    },
                    None => {},
                }
                pairs.push(
                    (Value::Keyword(self.kws.kind), Value::Keyword(self.kws.io_kinds[kind.index()])),
                );
                pairs.push(
                    (Value::Keyword(self.kws.message), Value::Str(Rc::new(StrObj(copy_str(msg.as_str()))))),
                );
            },
        }
        Value::Dict(Rc::new(pairs))
    }

    /// A fresh symbol name: deterministic within a compilation unit.
    pub fn gensym_name(&mut self, prefix: &str) -> (r: String)
        ensures
            final(self).gensym as int == (if old(self).gensym < u64::MAX {
                old(self).gensym + 1
            } else {
                old(self).gensym as int
            }),
            r@ == prefix@ + seq!['_', '_'] + crate::text::nat_digits(final(self).gensym as nat),
            final(self).interner == old(self).interner,
            final(self).handles == old(self).handles,
    {
        if self.gensym < u64::MAX {
            self.gensym = self.gensym + 1;
        }
        let n = nat_to_text(self.gensym);
        let mut out = copy_str(prefix);
        push_str(&mut out, "__");
        push_str(&mut out, n.as_str());
        proof {
            reveal_strlit("__");
        }
        out
    }

    pub fn reset_gensym(&mut self)
        ensures
            final(self).gensym == 0,
            final(self).interner == old(self).interner,
            final(self).handles == old(self).handles,
    {
        self.gensym = 0;
    }

    /// The buffered host's only write path.
    pub fn emit(&mut self, text: &str)
        ensures
            final(self).out@ == old(self).out@ + text@,
            final(self).interner == old(self).interner,
            final(self).handles == old(self).handles,
    {
        self.out.append(text);
    }

    /// Everything emitted since the last take, leaving nothing behind.
    pub fn take_output(&mut self) -> (r: String)
        ensures
            r@ == old(self).out@,
            final(self).out@.len() == 0,
            final(self).interner == old(self).interner,
    {
        let r = copy_str(self.out.as_str());
        self.out = String::new();
        r
    }

    pub fn live_cells(&self) -> (r: usize)
        ensures
            r == self.cells@.len(),
    {
        self.cells.len()
    }

    /// A new cell holding `value`; reading it gives `value` back.
    pub fn new_cell(&mut self, value: Value) -> (r: CellId)
        ensures
            old(self).cells@.len() < u32::MAX ==> final(self).cell_spec(r) == Some(value),
            final(self).natives == old(self).natives,
            final(self).platform == old(self).platform,
            final(self).cells@.len() == old(self).cells@.len() + 1,
            forall|c: CellId|
                #![trigger final(self).cell_spec(c)]
                c.0 < old(self).cells@.len() ==> final(self).cell_spec(c) == old(self).cell_spec(c),
            final(self).globals == old(self).globals,
            final(self).handles == old(self).handles,
            final(self).interner == old(self).interner,
    {
        let at = self.cells.len();
        self.cells.push(CellEntry { generation: 0, value });
        CellId(#[verifier::truncate] (at as u32), 0)
    }

    pub fn cell(&self, id: CellId) -> (r: Option<&Value>)
        ensures
            match self.cell_spec(id) {
                Some(v) => r == Some(&v),
                None => r is None,
            },
    {
        let i = id.0 as usize;
        if i < self.cells.len() && self.cells[i].generation == id.1 {
            Some(&self.cells[i].value)
        } else {
            None
        }
    }

    /// Write a live cell; `false` where `id` names none.
    pub fn set_cell(&mut self, id: CellId, value: Value) -> (r: bool)
        ensures
            final(self).natives == old(self).natives,
            final(self).platform == old(self).platform,
            r == old(self).cell_spec(id) is Some,
            r ==> final(self).cell_spec(id) == Some(value),
            !r ==> final(self).cells == old(self).cells,
            final(self).cells@.len() == old(self).cells@.len(),
            forall|c: CellId|
                #![trigger final(self).cell_spec(c)]
                c.0 != id.0 ==> final(self).cell_spec(c) == old(self).cell_spec(c),
            final(self).globals == old(self).globals,
            final(self).handles == old(self).handles,
            final(self).interner == old(self).interner,
    {
        let i = id.0 as usize;
        if i < self.cells.len() && self.cells[i].generation == id.1 {
            self.cells.set(i, CellEntry { generation: id.1, value });
            true
        } else {
            false
        }
    }

    /// A new handle naming `host`. Opening makes no other id live and no
    /// live id dead: in particular, an id whose slot is reused stays stale.
    pub fn open_handle(&mut self, host: Host) -> (r: HandleId)
        ensures
            old(self).handles.free_view().len() > 0 ==> r.0 == old(self).handles.free_view().last() && r.1
                == next_generation(old(self).handles.gens_view()[r.0 as int]),
            old(self).handles.free_view().len() == 0 ==> r == HandleId(old(self).handles.slots() as u32, 0),
            final(self).handles.gens_view() == (if old(self).handles.free_view().len() > 0 {
                old(self).handles.gens_view().update(r.0 as int, r.1)
            } else {
                old(self).handles.gens_view().push(0)
            }),
            final(self).handles.hosts_view() == (if old(self).handles.free_view().len() > 0 {
                old(self).handles.hosts_view().update(r.0 as int, Some(host))
            } else {
                old(self).handles.hosts_view().push(Some(host))
            }),
            final(self).handles.free_view() == (if old(self).handles.free_view().len() > 0 {
                old(self).handles.free_view().drop_last()
            } else {
                old(self).handles.free_view()
            }),
            old(self).handles.slots() < u32::MAX ==> final(self).host_spec(r) == Some(host),
            old(self).handles.slots() < u32::MAX ==> forall|other: HandleId|
                #![trigger final(self).host_spec(other)]
                other != r ==> final(self).host_spec(other) == old(self).host_spec(other),
            final(self).interner == old(self).interner,
            final(self).globals == old(self).globals,
            final(self).cells == old(self).cells,
            final(self).natives == old(self).natives,
            final(self).platform == old(self).platform,
    {
        self.handles.open(host)
    }

    /// The resource a live handle names; `None` for a closed or stale one,
    /// which are both `:closed` to a program.
    pub fn host(&self, id: HandleId) -> (r: Option<Host>)
        ensures
            r == self.host_spec(id),
    {
        self.handles.host(id)
    }

    /// `false` means stale, not already closed: closing twice is what a
    /// correct `with-open` does when the body closed explicitly. A resource
    /// the platform holds is released here.
    pub fn close_handle(&mut self, id: HandleId) -> (r: bool)
        ensures
            final(self).handles.gens_view() == old(self).handles.gens_view(),
            r == old(self).handles.current(id),
            final(self).host_spec(id) is None,
            old(self).host_spec(id) is Some ==> final(self).handles.free_view() == old(self).handles.free_view().push(
                id.0,
            ) && final(self).handles.hosts_view() == old(self).handles.hosts_view().update(id.0 as int, None),
            old(self).host_spec(id) is None ==> final(self).handles.free_view() == old(self).handles.free_view()
                && final(self).handles.hosts_view() == old(self).handles.hosts_view(),
            forall|other: HandleId|
                #![trigger final(self).host_spec(other)]
                other.0 != id.0 ==> final(self).host_spec(other) == old(self).host_spec(other),
            final(self).interner == old(self).interner,
            final(self).globals == old(self).globals,
            final(self).cells == old(self).cells,
    {
        let (ok, released) = self.handles.close(id);
        match released {
            Some(Host::Resource(res)) => self.platform.close(res),
            _ => {},
        }
        ok
    }

    /// How many handles name a resource.
    pub fn open_handles(&self) -> (r: usize)
        ensures
            r == self.handles.open_spec(),
            self.handles.free_view().len() <= self.handles.slots() ==> r == self.handles.slots()
                - self.handles.free_view().len(),
    {
        self.handles.open_count()
    }

    pub fn global(&self, name: SymId) -> (r: Option<&Value>)
        ensures
            match self.global_spec(name) {
                Some(v) => r == Some(&v),
                None => r is None,
            },
    {
        let i = name.0 as usize;
        if i < self.globals.len() {
            match self.globals[i] {
                Some(id) => self.cell(id),
                None => None,
            }
        } else {
            None
        }
    }

    /// Create-or-rebind. The name's cell is created once and kept, so a
    /// closure that already read the global keeps seeing rebinds. Reading the
    /// global afterwards gives `value`.
    pub fn set_global(&mut self, name: SymId, value: Value)
        ensures
            old(self).cells@.len() < u32::MAX ==> final(self).global_spec(name) == Some(value),
            old(self).global_spec(name) is Some ==> final(self).globals@[name.0 as int] == old(
                self,
            ).globals@[name.0 as int],
            final(self).natives == old(self).natives,
            final(self).handles == old(self).handles,
            final(self).interner == old(self).interner,
            final(self).platform == old(self).platform,
    {
        let i = name.0 as usize;
        while self.globals.len() <= i
            invariant
                self.handles == old(self).handles,
                self.interner == old(self).interner,
                self.platform == old(self).platform,
                self.cells == old(self).cells,
                self.natives == old(self).natives,
                old(self).globals@.len() <= self.globals@.len(),
                forall|j: int|
                    0 <= j < old(self).globals@.len() ==> #[trigger] self.globals@[j] == old(
                        self,
                    ).globals@[j],
            decreases i + 1 - self.globals@.len(),
        {
            self.globals.push(None);
        }
        match self.globals[i] {
            Some(id) => {
                if self.cell(id).is_some() {
                    self.set_cell(id, value);
                } else {
                    // A global's cell is never released; a name whose cell
                    // has gone gets a new one.
                    let fresh = self.new_cell(value);
                    self.globals.set(i, Some(fresh));
                }
            },
            None => {
                let id = self.new_cell(value);
                self.globals.set(i, Some(id));
            },
        }
    }

    /// Bind a name to a value that is not a function, such as `io/stdout`.
    pub fn set_named_global(&mut self, name: &str, value: Value)
        ensures
            final(self).interner@ == (if last_index_of(old(self).interner@, name@) is Some {
                old(self).interner@
            } else {
                old(self).interner@.push(name@)
            }),
            old(self).cells@.len() < u32::MAX ==> final(self).global_spec(
                crate::compile::special(final(self).interner@, name@),
            ) == Some(value),
            final(self).natives == old(self).natives,
            grows(old(self).interner@, final(self).interner@),
            final(self).handles == old(self).handles,
            final(self).platform == old(self).platform,
    {
        let ghost before = self.interner@;
        let sym = SymId(self.interner.intern(name));
        proof {
            if last_index_of(before, name@) is None {
                assert(self.interner@.drop_last() =~= before);
            }
        }
        self.set_global(sym, value);
    }

    /// Register a primitive as an ordinary global.
    pub fn native(&mut self, name: &str, min: u32, variadic: bool, prim: Prim)
        ensures
            grows(old(self).interner@, final(self).interner@),
            final(self).interner@.len() <= old(self).interner@.len() + 1,
            old(self).interner@.len() < u32::MAX ==> {
                let n = final(self).natives@.last().name.0 as int;
                n < final(self).interner@.len() && final(self).interner@[n] == name@
            },
            final(self).handles == old(self).handles,
            final(self).platform == old(self).platform,
            final(self).natives@ == old(self).natives@.push(
                Native { name: final(self).natives@.last().name, min, variadic, prim },
            ),
    {
        let ghost before = self.interner@;
        let sym = SymId(self.interner.intern(name));
        proof {
            if before.len() < u32::MAX {
                lemma_intern_names(before, name@, sym.0, self.interner@);
            }
        }
        let at = self.natives.len();
        self.natives.push(Native { name: sym, min, variadic, prim });
        let id = NativeId(#[verifier::truncate] (at as u32));
        self.set_global(sym, Value::Fn(Rc::new(Closure::Native(id))));
    }

    /// A fresh closure identity.
    fn next_fn_id(&mut self) -> (r: u64)
        ensures
            r == old(self).fn_ids,
            final(self).interner == old(self).interner,
            final(self).handles == old(self).handles,
            final(self).globals == old(self).globals,
            final(self).cells == old(self).cells,
            final(self).natives == old(self).natives,
    {
        let id = self.fn_ids;
        self.fn_ids = self.fn_ids.wrapping_add(1);
        id
    }
}

/// Give a fault its position and make it an unwind. Every VM-raised failure
/// goes through here, which is what makes a fault a throw.
fn raise<P: Platform>(vm: &Vm<P>, kind: Kind, at: SpanOrigin, msg: String) -> (u: Unwind)
    ensures
        u.origin == at,
        vm_fault_map(vm.kws, kind, msg@, u.value),
        raised_kind(vm.kws, kind, u.value),
        u.suppressed@.len() == 0,
{
    let f = fault(kind, msg);
    let v = vm.fault_value(&f);
    Unwind::new(v, at)
}

/// One function activation. Slots live in a single flat vector on the
/// `Execution`, base-relative, which makes a tail call a truncation rather
/// than a copy.
#[derive(Debug)]
pub struct Frame {
    pub proto: u32,
    pub pc: usize,
    /// Index in `Execution::slots` of this frame's slot 0.
    pub base: usize,
    /// Absolute slot index, in the caller's frame, for the return value.
    pub dst: usize,
    /// The slot stack's length before this frame existed. Returning restores
    /// it.
    pub ret_len: usize,
    pub closure: Rc<Closure>,
}

/// One active `try` region: a catch has a slot to bind the thrown value to,
/// a finally has nothing to bind.
#[derive(Debug)]
pub struct Handler {
    /// The frame that owns the record.
    pub frame: usize,
    pub target: usize,
    pub err: Option<u32>,
}

/// An unwind parked while a cleanup runs. `depth` is the handler depth the
/// cleanup body runs at: an unwind that escapes below it displaces this one.
#[derive(Debug)]
pub struct Pending {
    pub depth: usize,
    pub unwind: Unwind,
}

pub struct Execution {
    pub frames: Vec<Frame>,
    pub slots: Vec<Value>,
    /// Active handlers and finalizers live here, never on the Rust stack.
    pub handlers: Vec<Handler>,
    pub pending: Vec<Pending>,
    /// Instructions left before this run suspends.
    pub fuel: u64,
}

impl Execution {
    pub fn new() -> (r: Execution)
        ensures
            r.frames@.len() == 0,
            r.slots@.len() == 0,
            r.handlers@.len() == 0,
            r.pending@.len() == 0,
            r.fuel == u64::MAX,
    {
        Execution {
            frames: Vec::new(),
            slots: Vec::new(),
            handlers: Vec::new(),
            pending: Vec::new(),
            fuel: u64::MAX,
        }
    }

    pub fn depth(&self) -> (r: usize)
        ensures
            r == self.frames@.len(),
    {
        self.frames.len()
    }

    pub fn slot_count(&self) -> (r: usize)
        ensures
            r == self.slots@.len(),
    {
        self.slots.len()
    }
}

/// The `Execution` a program starts in: `proto` running in frame 0 from
/// its first instruction, in a closure of its own with nothing captured,
/// every slot nil, and no handler record.
pub open spec fn started(chunk: &Chunk, proto: u32, ex: Execution) -> bool {
    &&& ex.frames@.len() == 1
    &&& ex.frames@[0].proto == proto
    &&& ex.frames@[0].pc == 0
    &&& ex.frames@[0].base == 0
    &&& ex.frames@[0].dst == 0
    &&& ex.frames@[0].ret_len == 0
    &&& *ex.frames@[0].closure matches Closure::Fn { proto: p, captures, .. } && p == proto
        && captures@.len() == 0
    &&& ex.slots@.len() == chunk.protos@[proto as int].slots
    &&& forall|i: int| 0 <= i < ex.slots@.len() ==> #[trigger] ex.slots@[i] == Value::Nil
    &&& ex.handlers@.len() == 0
    &&& ex.pending@.len() == 0
}

/// Run a chunk from its top-level proto to the end.
pub fn run<P: Platform>(vm: &mut Vm<P>, chunk: &Chunk) -> (r: Outcome)
    requires
        chunk.protos@.len() >= 1,
    ensures
        exists|ex: Execution, ex2: Execution|
            started(chunk, 0, ex) && #[trigger] ran(chunk, *old(vm), ex, *final(vm), ex2, r),
        exists|ex: Execution, ex2: Execution, steps: int|
            started(chunk, 0, ex) && #[trigger] ran_in(chunk, *old(vm), ex, *final(vm), ex2, r, steps) && 1 <= steps
                <= u64::MAX && (r is Suspended ==> steps == u64::MAX),
{
    run_traced(vm, chunk).0
}

/// `run`, plus the high-water marks of the frame and slot stacks.
pub fn run_traced<P: Platform>(vm: &mut Vm<P>, chunk: &Chunk) -> (r: (Outcome, (usize, usize)))
    requires
        chunk.protos@.len() >= 1,
    ensures
        r.1.0 >= 1,
        r.1.1 >= chunk.protos@[0].slots,
        exists|ex: Execution, ex2: Execution|
            started(chunk, 0, ex) && #[trigger] ran(chunk, *old(vm), ex, *final(vm), ex2, r.0),
        exists|ex: Execution, ex2: Execution, steps: int|
            started(chunk, 0, ex) && #[trigger] ran_in(chunk, *old(vm), ex, *final(vm), ex2, r.0, steps) && 1 <= steps
                <= u64::MAX && (r.0 is Suspended ==> steps == u64::MAX),
{
    let ex = start(chunk);
    let ghost ex0 = ex;
    let (outcome, after, peak) = run_fueled(vm, chunk, ex, u64::MAX);
    let r = (outcome, peak);
    assert(started(chunk, 0, ex0) && ran(chunk, *old(vm), ex0, *vm, after, r.0));
    proof {
        lemma_ran_in_steps(chunk, *old(vm), ex0, *vm, after, r.0, u64::MAX - after.fuel);
    }
    assert(ran_in(chunk, *old(vm), ex0, *vm, after, r.0, u64::MAX - after.fuel));
    r
}

/// A program's `Execution` before its first instruction: the top-level proto
/// in frame 0, nothing else.
pub fn start(chunk: &Chunk) -> (r: Execution)
    requires
        chunk.protos@.len() >= 1,
    ensures
        started(chunk, 0, r),
{
    start_at(chunk, 0)
}

/// The same, starting at a named proto: evaluating a session's input means
/// running the one proto that input added.
pub fn start_at(chunk: &Chunk, proto: u32) -> (r: Execution)
    requires
        (proto as int) < chunk.protos@.len(),
    ensures
        started(chunk, proto, r),
{
    // A top-level closure's identity is derived from its proto, from the top
    // of the range closures created at run time count up from.
    let top = Rc::new(Closure::Fn { proto, captures: Rc::new(Vec::new()), id: u64::MAX - proto as u64 });
    let mut ex = Execution::new();
    let n = chunk.protos[proto as usize].slots;
    let mut i: u32 = 0;
    while i < n
        invariant
            ex.slots@.len() == i,
            i <= n,
            ex.frames@.len() == 0,
            ex.handlers@.len() == 0,
            ex.pending@.len() == 0,
            forall|j: int| 0 <= j < ex.slots@.len() ==> #[trigger] ex.slots@[j] == Value::Nil,
        decreases n - i,
    {
        ex.slots.push(Value::Nil);
        i = i + 1;
    }
    ex.frames.push(Frame { proto, pc: 0, base: 0, dst: 0, ret_len: 0, closure: top });
    ex
}

/// Run, or resume, for at most `fuel` instructions, handing the `Execution`
/// back either way. Resuming is calling this again with what it returned.
pub fn run_fueled<P: Platform>(vm: &mut Vm<P>, chunk: &Chunk, ex: Execution, fuel: u64) -> (r: (
    Outcome,
    Execution,
    (usize, usize),
))
    ensures
        r.0 is Suspended ==> r.1.fuel == 0,
        r.0 is Returned ==> r.1.handlers@.len() == 0 && r.1.pending@.len() == 0,
        r.1.fuel <= fuel,
        ex.frames@.len() <= r.2.0,
        ex.slots@.len() <= r.2.1,
        ran(chunk, *old(vm), ex, *final(vm), r.1, r.0),
        ran_in(chunk, *old(vm), ex, *final(vm), r.1, r.0, fuel - r.1.fuel),
{
    let mut ex = ex;
    ex.fuel = fuel;
    let (outcome, peak) = drive(vm, chunk, &mut ex);
    (outcome, ex, peak)
}

/// Calling the bytecode closure `c`, of function `proto`, on `args` from
/// outside any frame: one frame entered with the callee below its
/// arguments, then a run from there, whose outcome is the call's result;
/// a run that never ended is a failure.
pub open spec fn called<P: Platform>(
    chunk: &Chunk,
    vm: Vm<P>,
    c: Rc<Closure>,
    proto: u32,
    args: Seq<Value>,
    vm2: Vm<P>,
    r: Result<Value, Unwind>,
) -> bool {
    exists|ex: Execution, ex2: Execution, out: Outcome|
        #[trigger] ran(chunk, vm, ex, vm2, ex2, out) && ex.frames@ == seq![
            Frame { proto, pc: 0, base: 1, dst: 0, ret_len: (args.len() + 1) as usize, closure: c },
        ] && entered(seq![Value::Fn(c)] + args, ex.slots@, chunk.protos@[proto as int], args.len() as u32, 1)
            && ex.handlers@.len() == 0 && ex.pending@.len() == 0 && match out {
            Outcome::Returned(v) => r == Ok::<Value, Unwind>(v),
            Outcome::Threw(u) => r == Err::<Value, Unwind>(u),
            Outcome::Suspended => r is Err,
        }
}

/// Call a closure from outside the dispatch loop, inside the chunk it was
/// compiled in. This is how a macro body runs.
pub fn call_in<P: Platform>(
    vm: &mut Vm<P>,
    chunk: &Chunk,
    f: Value,
    args: &Vec<Value>,
    at: SpanOrigin,
) -> (r: Result<Value, Unwind>)
    ensures
        !(f is Fn) ==> (r matches Err(u) && raised_kind(old(vm).kws, Kind::NotCallable, u.value)),
        f matches Value::Fn(c) ==> (*c matches Closure::Fn { proto, .. } ==> (args@.len() <= u32::MAX ==> {
            &&& !enters(chunk, proto, args@.len() as u32, 1) ==> r is Err
            &&& (proto as int) < chunk.protos@.len() && !arity_ok(chunk.protos@[proto as int], args@.len() as u32)
                ==> (r matches Err(u) && raised_kind(old(vm).kws, Kind::Arity, u.value))
            &&& enters(chunk, proto, args@.len() as u32, 1) ==> called(chunk, *old(vm), c, proto, args@, *final(vm), r)
        })),
{
    let ghost callee = f;
    let mut ex = Execution::new();
    ex.slots.push(f);
    let mut i: usize = 0;
    while i < args.len()
        invariant
            ex.slots@.len() == i + 1,
            ex.slots@[0] == callee,
            ex.slots@ == seq![callee] + args@.take(i as int),
            i <= args@.len(),
            ex.frames@.len() == 0,
            ex.handlers@.len() == 0,
            ex.pending@.len() == 0,
            ex.fuel == u64::MAX,
        decreases args@.len() - i,
    {
        ex.slots.push(args[i].clone());
        proof {
            assert(seq![callee] + args@.take(i + 1) =~= (seq![callee] + args@.take(i as int)).push(args@[i as int]));
        }
        i = i + 1;
    }
    proof {
        assert(args@.take(args@.len() as int) =~= args@);
    }
    let ghost ex0 = ex;
    let argc = #[verifier::truncate] (args.len() as u32);
    match call(vm, &mut ex, chunk, 0, argc, 0, at) {
        Err(u) => Err(u),
        Ok(Some(v)) => Ok(v),
        Ok(None) => {
            let ghost ex1 = ex;
            let (outcome, _) = drive(vm, chunk, &mut ex);
            let ghost ex2 = ex;
            let r = match outcome {
                Outcome::Returned(v) => Ok(v),
                Outcome::Threw(u) => Err(u),
                Outcome::Suspended => Err(raise(vm, Kind::Internal, at, copy_str("a call ran out of fuel"))),
            };
            proof {
                match callee {
                    Value::Fn(c) => match *c {
                        Closure::Fn { proto, .. } => {
                            if args@.len() <= u32::MAX {
                                assert(ex0.slots@ =~= seq![Value::Fn(c)] + args@);
                                assert(ran(chunk, *old(vm), ex1, *vm, ex2, outcome));
                                assert(ex1.frames@ =~= seq![
                                    Frame {
                                        proto,
                                        pc: 0,
                                        base: 1,
                                        dst: 0,
                                        ret_len: (args@.len() + 1) as usize,
                                        closure: c,
                                    },
                                ]);
                            }
                        },
                        _ => {},
                    },
                    _ => {},
                }
            }
            r
        },
    }
}

/// What executing one instruction did.
pub enum Step {
    Next,
    Done(Value),
}

/// Where slot `s` of the running frame lies in the slot stack.
pub open spec fn slot_of(ex: Execution, s: u32) -> int {
    ex.frames@.last().base + s
}

/// Whether slot `s` of the running frame lies inside the slot stack.
pub open spec fn has_slot(ex: Execution, s: u32) -> bool {
    slot_of(ex, s) < ex.slots@.len()
}

/// What slot `s` of the running frame holds.
pub open spec fn slot_value(ex: Execution, s: u32) -> Value {
    ex.slots@[slot_of(ex, s)]
}

/// Frames and handler records as they were, and the slot stack now `slots`.
pub open spec fn only_slots(ex: Execution, ex2: Execution, slots: Seq<Value>) -> bool {
    &&& ex2.frames@ == ex.frames@
    &&& ex2.slots@ == slots
    &&& ex2.handlers@ == ex.handlers@
    &&& ex2.pending@ == ex.pending@
}

/// Slots and handler records as they were, and the frame stack now `frames`.
pub open spec fn only_frames(ex: Execution, ex2: Execution, frames: Seq<Frame>) -> bool {
    &&& ex2.frames@ == frames
    &&& ex2.slots@ == ex.slots@
    &&& ex2.handlers@ == ex.handlers@
    &&& ex2.pending@ == ex.pending@
}

/// Frames and slots as they were, and the handler records now these.
pub open spec fn only_records(ex: Execution, ex2: Execution, handlers: Seq<Handler>, pending: Seq<Pending>) -> bool {
    &&& ex2.frames@ == ex.frames@
    &&& ex2.slots@ == ex.slots@
    &&& ex2.handlers@ == handlers
    &&& ex2.pending@ == pending
}

/// What one instruction does to a running `Execution` (one with a frame):
/// when it succeeds, and what it leaves behind. Past the program counter,
/// which fetching the instruction already moved.
#[verifier::opaque]
pub open spec fn stepped<P: Platform>(
    vm: Vm<P>,
    vm2: Vm<P>,
    ex: Execution,
    ex2: Execution,
    chunk: &Chunk,
    ins: Instr,
    at: SpanOrigin,
    r: Result<Step, Unwind>,
) -> bool {
    let top = ex.frames@.last();
    let next = Ok::<Step, Unwind>(Step::Next);
    match ins {
        Instr::Const { dst, k } => {
            let p = top.proto as int;
            &&& r is Ok <==> p < chunk.protos@.len() && k < chunk.protos@[p].consts@.len() && has_slot(ex, dst)
            &&& r is Ok ==> r == next && vm2 == vm && only_slots(
                ex,
                ex2,
                ex.slots@.update(slot_of(ex, dst), chunk.protos@[p].consts@[k as int]),
            )
        },
        Instr::Move { dst, src } => {
            &&& r is Ok <==> has_slot(ex, src) && has_slot(ex, dst)
            &&& r is Ok ==> r == next && vm2 == vm && only_slots(
                ex,
                ex2,
                ex.slots@.update(slot_of(ex, dst), slot_value(ex, src)),
            )
        },
        Instr::GetGlobal { dst, name } => {
            &&& vm.global_spec(name) is None ==> (r matches Err(u) && u.origin == at && raised_kind(
                vm.kws,
                Kind::Unbound,
                u.value,
            ))
            &&& r is Ok <==> vm.global_spec(name) is Some && has_slot(ex, dst)
            &&& r is Ok ==> r == next && vm2 == vm && only_slots(
                ex,
                ex2,
                ex.slots@.update(slot_of(ex, dst), vm.global_spec(name)->Some_0),
            )
        },
        Instr::SetGlobal { name, src } => {
            &&& r is Ok <==> has_slot(ex, src)
            &&& r is Ok ==> r == next && only_slots(ex, ex2, ex.slots@) && (vm.cells@.len() < u32::MAX
                ==> vm2.global_spec(name) == Some(slot_value(ex, src)))
        },
        Instr::GetCapture { dst, idx } => {
            &&& r is Ok <==> captured(*top.closure, idx) is Some && has_slot(ex, dst)
            &&& r is Ok ==> r == next && vm2 == vm && only_slots(
                ex,
                ex2,
                ex.slots@.update(slot_of(ex, dst), captured(*top.closure, idx)->Some_0),
            )
        },
        Instr::GetSelf { dst } => {
            &&& r is Ok <==> has_slot(ex, dst)
            &&& r is Ok ==> r == next && vm2 == vm && only_slots(
                ex,
                ex2,
                ex.slots@.update(slot_of(ex, dst), Value::Fn(top.closure)),
            )
        },
        Instr::SetCell { cell, src } => {
            let c = slot_value(ex, cell);
            &&& has_slot(ex, cell) && has_slot(ex, src) && !(c is Cell) ==> (r matches Err(u) && raised_kind(
                vm.kws,
                Kind::Type,
                u.value,
            ))
            &&& r is Ok <==> has_slot(ex, cell) && has_slot(ex, src) && c is Cell && vm.cell_spec(c->Cell_0) is Some
            &&& r is Ok ==> r == next && only_slots(ex, ex2, ex.slots@) && vm2.cell_spec(c->Cell_0) == Some(
                slot_value(ex, src),
            )
        },
        Instr::Jump { target } => r == next && vm2 == vm && only_frames(ex, ex2, jumped(ex.frames@, target as usize)),
        Instr::JumpUnless { cond, target } => {
            &&& r is Ok <==> has_slot(ex, cond)
            &&& r is Ok ==> r == next && vm2 == vm && only_frames(
                ex,
                ex2,
                if crate::prim::falsy_spec(slot_value(ex, cond)) {
                    jumped(ex.frames@, target as usize)
                } else {
                    ex.frames@
                },
            )
        },
        Instr::Return { src } => {
            &&& r is Ok <==> has_slot(ex, src)
            &&& r is Ok && ex.frames@.len() == 1 ==> r == Ok::<Step, Unwind>(Step::Done(slot_value(ex, src)))
            &&& r is Ok && ex.frames@.len() > 1 ==> r == next && ex2.frames@ == ex.frames@.drop_last()
                && ex2.slots@ == deliver(cut(ex.slots@, top.ret_len as int), top.dst as int, slot_value(ex, src))
                && ex2.handlers@ == ex.handlers@ && ex2.pending@ == ex.pending@
        },
        Instr::Throw { src } => {
            &&& r is Err
            &&& has_slot(ex, src) ==> (r matches Err(u) && u.value == slot_value(ex, src) && u.origin == at
                && u.suppressed@.len() == 0)
        },
        Instr::PushHandler { catch, err } => r == next && vm2 == vm && only_records(
            ex,
            ex2,
            ex.handlers@.push(Handler { frame: (ex.frames@.len() - 1) as usize, target: catch as usize, err: Some(err) }),
            ex.pending@,
        ),
        Instr::PushFinally { target } => r == next && vm2 == vm && only_records(
            ex,
            ex2,
            ex.handlers@.push(Handler { frame: (ex.frames@.len() - 1) as usize, target: target as usize, err: None }),
            ex.pending@,
        ),
        Instr::PopHandler => {
            &&& r is Ok <==> ex.handlers@.len() > 0
            &&& r is Ok ==> r == next && vm2 == vm && only_records(ex, ex2, ex.handlers@.drop_last(), ex.pending@)
        },
        Instr::EndFinally => {
            &&& r is Err
            &&& ex.pending@.len() > 0 ==> r == Err::<Step, Unwind>(ex.pending@.last().unwind)
                && ex2.pending@ == ex.pending@.drop_last()
        },
        Instr::Call { dst, base: cb, argc } => {
            let callee = slot_of(ex, cb);
            let d = slot_of(ex, dst);
            &&& !(has_slot(ex, cb) && has_slot(ex, dst)) ==> r is Err
            &&& has_slot(ex, cb) && has_slot(ex, dst) ==> match slot_value(ex, cb) {
                Value::Fn(c) => match *c {
                    Closure::Fn { proto, .. } => {
                        &&& (proto as int) < chunk.protos@.len() && !arity_ok(chunk.protos@[proto as int], argc) ==> (
                        r matches Err(u) && raised_kind(vm.kws, Kind::Arity, u.value))
                        &&& r is Ok <==> enters(chunk, proto, argc, callee + 1)
                        &&& r is Ok ==> r == next && pushed(
                            ex,
                            ex2,
                            chunk,
                            proto,
                            argc,
                            Frame {
                                proto,
                                pc: 0,
                                base: (callee + 1) as usize,
                                dst: d as usize,
                                ret_len: ex.slots@.len() as usize,
                                closure: c,
                            },
                        )
                    },
                    Closure::Native(id) => {
                        &&& r is Ok ==> (r == next && only_slots(ex, ex2, ex.slots@.update(d, ex2.slots@[d])))
                        &&& (id.0 as int) < vm.natives@.len() && !native_fits(vm.natives@[id.0 as int], argc) ==> (
                        r matches Err(u) && raised_kind(vm.kws, Kind::Arity, u.value))
                        &&& (id.0 as int) < vm.natives@.len() && native_fits(vm.natives@[id.0 as int], argc)
                            && args_exist(ex.slots@, callee, argc) ==> exists|res: Result<Value, Fault>|
                            #[trigger] crate::prim::prim_post(
                                vm,
                                vm2,
                                vm.natives@[id.0 as int].prim,
                                call_window(ex.slots@, callee, argc),
                                res,
                            ) && match res {
                                Ok(v) => r == next && ex2.slots@[d] == v,
                                Err(_) => r is Err,
                            }
                    },
                },
                _ => r matches Err(u) && raised_kind(vm.kws, Kind::NotCallable, u.value),
            }
        },
        Instr::TailCall { base: cb, argc } => {
            let callee = slot_of(ex, cb);
            &&& !has_slot(ex, cb) ==> r is Err
            &&& has_slot(ex, cb) ==> match slot_value(ex, cb) {
                Value::Fn(c) => match *c {
                    Closure::Fn { proto, .. } => {
                        &&& args_exist(ex.slots@, callee, argc) && (proto as int) < chunk.protos@.len() && !arity_ok(
                            chunk.protos@[proto as int],
                            argc,
                        ) ==> (r matches Err(u) && raised_kind(vm.kws, Kind::Arity, u.value))
                        &&& r is Ok <==> args_exist(ex.slots@, callee, argc) && enters(
                            chunk,
                            proto,
                            argc,
                            top.base as int,
                        )
                        &&& r is Ok ==> {
                            &&& r == next
                            &&& ex2.frames@ == ex.frames@.update(ex.frames@.len() - 1, reused(top, proto, c))
                            &&& entered(
                                moved_down(ex.slots@, top.base as int, callee, argc),
                                ex2.slots@,
                                chunk.protos@[proto as int],
                                argc,
                                top.base as int,
                            )
                            &&& ex2.handlers@ == ex.handlers@
                            &&& ex2.pending@ == ex.pending@
                        }
                    },
                    Closure::Native(id) => {
                        &&& r is Ok ==> ((ex.frames@.len() == 1 ==> r matches Ok(Step::Done(_))) && (ex.frames@.len()
                            > 1 ==> r == next && ex2.frames@ == ex.frames@.drop_last()))
                        &&& (id.0 as int) < vm.natives@.len() && !native_fits(vm.natives@[id.0 as int], argc) ==> (
                        r matches Err(u) && raised_kind(vm.kws, Kind::Arity, u.value))
                        &&& (id.0 as int) < vm.natives@.len() && native_fits(vm.natives@[id.0 as int], argc)
                            && args_exist(ex.slots@, callee, argc) ==> exists|res: Result<Value, Fault>|
                            #[trigger] crate::prim::prim_post(
                                vm,
                                vm2,
                                vm.natives@[id.0 as int].prim,
                                call_window(ex.slots@, callee, argc),
                                res,
                            ) && match res {
                                Ok(v) => (ex.frames@.len() == 1 ==> r == Ok::<Step, Unwind>(Step::Done(v))) && (
                                ex.frames@.len() > 1 ==> r == next && ex2.slots@ == deliver(
                                    cut(ex.slots@, top.ret_len as int),
                                    top.dst as int,
                                    v,
                                )),
                                Err(_) => r is Err,
                            }
                    },
                },
                _ => r matches Err(u) && raised_kind(vm.kws, Kind::NotCallable, u.value),
            }
        },
        Instr::Closure { dst, proto } => {
            let srcs = chunk.protos@[proto as int].captures@;
            let made = ex2.slots@[slot_of(ex, dst)];
            &&& r is Ok <==> proto < chunk.protos@.len() && has_slot(ex, dst) && forall|i: int|
                0 <= i < srcs.len() ==> #[trigger] capture_value(ex, srcs[i]) is Some
            &&& r is Ok ==> r == next && only_slots(ex, ex2, ex.slots@.update(slot_of(ex, dst), made))
                && exists|vals: Seq<Value>| #[trigger] closure_made(made, proto, vals, vm.fn_ids)
                && vals.len() == srcs.len() && forall|i: int|
                0 <= i < srcs.len() ==> #[trigger] capture_value(ex, srcs[i]) == Some(vals[i])
        },
    }
}

/// What a capture source reads in the running frame, when there is
/// something to read.
pub open spec fn capture_value(ex: Execution, src: CaptureSrc) -> Option<Value> {
    let me = ex.frames@.last().closure;
    match src {
        CaptureSrc::Local(s) => if has_slot(ex, s) {
            Some(slot_value(ex, s))
        } else {
            None
        },
        CaptureSrc::Capture(c) => captured(*me, c),
        CaptureSrc::SelfFn => Some(Value::Fn(me)),
    }
}

/// `v` is a new closure of `proto` holding `vals`, with identity `id`.
pub open spec fn closure_made(v: Value, proto: u32, vals: Seq<Value>, id: u64) -> bool {
    v matches Value::Fn(c) && *c == Closure::Fn { proto, captures: c->captures, id } && c->captures@ == vals
}

/// Frames, slots and handler records agree; the fuel may not.
pub open spec fn same_run(a: Execution, b: Execution) -> bool {
    &&& a.frames@ == b.frames@
    &&& a.slots@ == b.slots@
    &&& a.handlers@ == b.handlers@
    &&& a.pending@ == b.pending@
}

/// How a failure ends a turn: delivered to a handler record, the run goes
/// on (`end` is `None`); handed back, the run throws it.
pub open spec fn delivered(ex: Execution, u: Unwind, ex2: Execution, end: Option<Outcome>) -> bool {
    exists|esc: Option<Unwind>|
        #[trigger] unwound(ex, u, ex2, esc) && match esc {
            Some(e) => end == Some(Outcome::Threw(e)),
            None => end is None,
        }
}

/// One turn of the dispatch loop from `ex`: fetch the instruction the
/// running frame points at and move past it, execute it, and deliver a
/// failure, whether the fetch or the instruction raised it. `end` is the
/// outcome when the turn ends the run: a return from the outermost frame
/// (a throw when a handler record is still open), or a failure nothing
/// caught.
pub open spec fn turn<P: Platform>(
    chunk: &Chunk,
    vm: Vm<P>,
    ex: Execution,
    vm2: Vm<P>,
    ex2: Execution,
    end: Option<Outcome>,
) -> bool {
    match fetched(chunk, ex) {
        None => vm2 == vm && exists|u: Unwind| #[trigger] delivered(ex, u, ex2, end),
        Some((ins, at)) => exists|exa: Execution, vmb: Vm<P>, exb: Execution, r: Result<Step, Unwind>|
            #[trigger] stepped(vm, vmb, exa, exb, chunk, ins, at, r) && moved_on(ex, exa) && vm2 == vmb && match r {
                Ok(Step::Next) => same_run(exb, ex2) && end is None,
                Ok(Step::Done(v)) => same_run(exb, ex2) && if exb.handlers@.len() == 0 && exb.pending@.len()
                    == 0 {
                    end == Some(Outcome::Returned(v))
                } else {
                    end matches Some(Outcome::Threw(_))
                },
                Err(u) => delivered(exb, u, ex2, end),
            },
    }
}

/// A trace of a run: machine states, each one turn, not ending the run,
/// after the one before.
pub open spec fn trace_ok<P: Platform>(chunk: &Chunk, states: Seq<(Vm<P>, Execution)>) -> bool {
    &&& states.len() >= 1
    &&& forall|i: int|
        0 <= i < states.len() - 1 ==> turn(
            chunk,
            (#[trigger] states[i]).0,
            states[i].1,
            states[i + 1].0,
            states[i + 1].1,
            None,
        )
}

/// A run from `vm` and `ex` ended as `outcome`, leaving `vm2` and `ex2`:
/// some turns that did not end it, then, unless it was suspended, one that
/// did.
pub open spec fn ran<P: Platform>(
    chunk: &Chunk,
    vm: Vm<P>,
    ex: Execution,
    vm2: Vm<P>,
    ex2: Execution,
    outcome: Outcome,
) -> bool {
    exists|states: Seq<(Vm<P>, Execution)>|
        #[trigger] trace_ok(chunk, states) && states[0].0 == vm && same_run(states[0].1, ex) && {
            let last = states.last();
            if outcome is Suspended {
                last.0 == vm2 && same_run(last.1, ex2)
            } else {
                turn(chunk, last.0, last.1, vm2, ex2, Some(outcome))
            }
        }
}

/// A run as `ran` says, taking exactly `steps` turns: a suspended run
/// stops after its last turn, an ended run's last turn is the one that
/// ended it.
pub open spec fn ran_in<P: Platform>(
    chunk: &Chunk,
    vm: Vm<P>,
    ex: Execution,
    vm2: Vm<P>,
    ex2: Execution,
    outcome: Outcome,
    steps: int,
) -> bool {
    exists|states: Seq<(Vm<P>, Execution)>|
        #[trigger] trace_ok(chunk, states) && states[0].0 == vm && same_run(states[0].1, ex) && {
            let last = states.last();
            if outcome is Suspended {
                states.len() == steps + 1 && last.0 == vm2 && same_run(last.1, ex2)
            } else {
                states.len() == steps && turn(chunk, last.0, last.1, vm2, ex2, Some(outcome))
            }
        }
}

/// A run that ended took at least the turn that ended it.
proof fn lemma_ran_in_steps<P: Platform>(
    chunk: &Chunk,
    vm: Vm<P>,
    ex: Execution,
    vm2: Vm<P>,
    ex2: Execution,
    outcome: Outcome,
    steps: int,
)
    requires
        ran_in(chunk, vm, ex, vm2, ex2, outcome, steps),
    ensures
        steps >= 1 || outcome is Suspended,
{
}

/// A turn depends on the state it starts from only through its frames,
/// slots and handler records.
proof fn lemma_turn_same_start<P: Platform>(
    chunk: &Chunk,
    vm: Vm<P>,
    ex: Execution,
    ex1: Execution,
    vm2: Vm<P>,
    ex2: Execution,
    end: Option<Outcome>,
)
    requires
        same_run(ex, ex1),
        turn(chunk, vm, ex, vm2, ex2, end),
    ensures
        turn(chunk, vm, ex1, vm2, ex2, end),
{
    assert(fetched(chunk, ex) == fetched(chunk, ex1));
    match fetched(chunk, ex) {
        None => {
            let u = choose|u: Unwind| #[trigger] delivered(ex, u, ex2, end);
            let esc = choose|esc: Option<Unwind>|
                #[trigger] unwound(ex, u, ex2, esc) && match esc {
                    Some(e) => end == Some(Outcome::Threw(e)),
                    None => end is None,
                };
            assert(unwound(ex1, u, ex2, esc));
            assert(delivered(ex1, u, ex2, end));
        },
        Some((ins, at)) => {
            let (exa, vmb, exb, r) = choose|exa: Execution, vmb: Vm<P>, exb: Execution, r: Result<Step, Unwind>|
                #[trigger] stepped(vm, vmb, exa, exb, chunk, ins, at, r) && moved_on(ex, exa) && vm2 == vmb
                    && match r {
                    Ok(Step::Next) => same_run(exb, ex2) && end is None,
                    Ok(Step::Done(v)) => same_run(exb, ex2) && if exb.handlers@.len() == 0
                        && exb.pending@.len() == 0 {
                        end == Some(Outcome::Returned(v))
                    } else {
                        end matches Some(Outcome::Threw(_))
                    },
                    Err(u) => delivered(exb, u, ex2, end),
                };
            assert(moved_on(ex1, exa));
        },
    }
}

/// A run that was suspended and then resumed from the `Execution` it
/// handed back is one run: the outcome of the resumed run is the outcome of
/// running uninterrupted from where the first one started.
pub proof fn lemma_resume<P: Platform>(
    chunk: &Chunk,
    vm: Vm<P>,
    ex: Execution,
    vm1: Vm<P>,
    ex1: Execution,
    ex1b: Execution,
    vm2: Vm<P>,
    ex2: Execution,
    out: Outcome,
)
    requires
        ran(chunk, vm, ex, vm1, ex1, Outcome::Suspended),
        same_run(ex1, ex1b),
        ran(chunk, vm1, ex1b, vm2, ex2, out),
    ensures
        ran(chunk, vm, ex, vm2, ex2, out),
{
    let s1 = choose|states: Seq<(Vm<P>, Execution)>|
        #[trigger] trace_ok(chunk, states) && states[0].0 == vm && same_run(states[0].1, ex) && {
            let last = states.last();
            if Outcome::Suspended is Suspended {
                last.0 == vm1 && same_run(last.1, ex1)
            } else {
                turn(chunk, last.0, last.1, vm1, ex1, Some(Outcome::Suspended))
            }
        };
    let s2 = choose|states: Seq<(Vm<P>, Execution)>|
        #[trigger] trace_ok(chunk, states) && states[0].0 == vm1 && same_run(states[0].1, ex1b) && {
            let last = states.last();
            if out is Suspended {
                last.0 == vm2 && same_run(last.1, ex2)
            } else {
                turn(chunk, last.0, last.1, vm2, ex2, Some(out))
            }
        };
    let t = s1 + s2.drop_first();
    let k = s1.len() - 1;
    assert(same_run(s2[0].1, s1[k].1));
    assert forall|i: int| 0 <= i < t.len() - 1 implies turn(
        chunk,
        (#[trigger] t[i]).0,
        t[i].1,
        t[i + 1].0,
        t[i + 1].1,
        None,
    ) by {
        if i < k {
            assert(t[i] == s1[i] && t[i + 1] == s1[i + 1]);
        } else if i == k {
            assert(t[i] == s1[k] && t[i + 1] == s2[1]);
            assert(turn(chunk, s2[0].0, s2[0].1, s2[1].0, s2[1].1, None));
            lemma_turn_same_start(chunk, s2[0].0, s2[0].1, s1[k].1, s2[1].0, s2[1].1, None);
        } else {
            let j = i - k;
            assert(t[i] == s2[j] && t[i + 1] == s2[j + 1]);
            assert(turn(chunk, s2[j].0, s2[j].1, s2[j + 1].0, s2[j + 1].1, None));
        }
    }
    assert(t[0] == s1[0]);
    if s2.len() == 1 {
        assert(t.last() == s1[k]);
        if !(out is Suspended) {
            lemma_turn_same_start(chunk, s2[0].0, s2[0].1, s1[k].1, vm2, ex2, Some(out));
        }
    } else {
        assert(t.last() == s2.last());
    }
    assert(trace_ok(chunk, t));
}

/// A trace grows by one turn from its last state.
proof fn lemma_trace_grows<P: Platform>(chunk: &Chunk, states: Seq<(Vm<P>, Execution)>, vm: Vm<P>, ex: Execution)
    requires
        trace_ok(chunk, states),
        turn(chunk, states.last().0, states.last().1, vm, ex, None),
    ensures
        trace_ok(chunk, states.push((vm, ex))),
{
    let t = states.push((vm, ex));
    assert forall|i: int| 0 <= i < t.len() - 1 implies turn(
        chunk,
        (#[trigger] t[i]).0,
        t[i].1,
        t[i + 1].0,
        t[i + 1].1,
        None,
    ) by {
        if i < states.len() - 1 {
            assert(t[i] == states[i] && t[i + 1] == states[i + 1]);
        } else {
            assert(t[i] == states.last() && t[i + 1] == (vm, ex));
        }
    }
}

/// The dispatch loop over an `Execution` someone else set up.
fn drive<P: Platform>(vm: &mut Vm<P>, chunk: &Chunk, ex: &mut Execution) -> (r: (Outcome, (usize, usize)))
    ensures
        r.0 is Suspended ==> final(ex).fuel == 0,
        r.0 is Returned ==> final(ex).handlers@.len() == 0 && final(ex).pending@.len() == 0,
        final(ex).fuel <= old(ex).fuel,
        old(ex).frames@.len() <= r.1.0,
        old(ex).slots@.len() <= r.1.1,
        ran(chunk, *old(vm), *old(ex), *final(vm), *final(ex), r.0),
        ran_in(chunk, *old(vm), *old(ex), *final(vm), *final(ex), r.0, old(ex).fuel - final(ex).fuel),
{
    let mut peak = (ex.frames.len(), ex.slots.len());
    let ghost mut states: Seq<(Vm<P>, Execution)> = seq![(*vm, *ex)];
    loop
        invariant
            ex.fuel <= old(ex).fuel,
            old(ex).frames@.len() <= peak.0,
            old(ex).slots@.len() <= peak.1,
            trace_ok(chunk, states),
            states[0].0 == *old(vm),
            same_run(states[0].1, *old(ex)),
            states.last().0 == *vm,
            same_run(states.last().1, *ex),
            states.len() == old(ex).fuel - ex.fuel + 1,
        decreases ex.fuel,
    {
        // Before the fetch, so the suspension point is between two
        // instructions and never inside one.
        if ex.fuel == 0 {
            return (Outcome::Suspended, peak);
        }
        let ghost vm0 = *vm;
        let ghost ek = states.last().1;
        ex.fuel = ex.fuel - 1;
        let fetched_ins = fetch(vm, chunk, ex);
        let result = match fetched_ins {
            Ok((ins, at)) => exec(vm, ex, chunk, ins, at),
            Err(u) => Err(u),
        };
        match result {
            Ok(Step::Next) => {
                proof {
                    assert(turn(chunk, vm0, ek, *vm, *ex, None));
                    lemma_trace_grows(chunk, states, *vm, *ex);
                    states = states.push((*vm, *ex));
                }
            },
            Ok(Step::Done(v)) => {
                // A record left open by a return is a compiler bug, not a
                // program error.
                if ex.handlers.len() > 0 || ex.pending.len() > 0 {
                    let u = raise(
                        vm,
                        Kind::Internal,
                        SpanOrigin::Unknown,
                        copy_str("the run finished with a handler region open"),
                    );
                    proof {
                        assert(turn(chunk, vm0, ek, *vm, *ex, Some(Outcome::Threw(u))));
                    }
                    return (Outcome::Threw(u), peak);
                }
                proof {
                    assert(turn(chunk, vm0, ek, *vm, *ex, Some(Outcome::Returned(v))));
                }
                return (Outcome::Returned(v), peak);
            },
            Err(u) => {
                let ghost exb = *ex;
                let ghost gone = u;
                match unwind(ex, u) {
                    Some(escaped) => {
                        proof {
                            if fetched(chunk, ek) is None {
                                assert(unwound(ek, gone, *ex, Some(escaped)));
                                assert(delivered(ek, gone, *ex, Some(Outcome::Threw(escaped))));
                            } else {
                                assert(delivered(exb, gone, *ex, Some(Outcome::Threw(escaped))));
                            }
                            assert(turn(chunk, vm0, ek, *vm, *ex, Some(Outcome::Threw(escaped))));
                        }
                        return (Outcome::Threw(escaped), peak);
                    },
                    None => {
                        proof {
                            if fetched(chunk, ek) is None {
                                assert(unwound(ek, gone, *ex, None));
                                assert(delivered(ek, gone, *ex, None));
                            } else {
                                assert(delivered(exb, gone, *ex, None));
                            }
                            assert(turn(chunk, vm0, ek, *vm, *ex, None));
                            lemma_trace_grows(chunk, states, *vm, *ex);
                            states = states.push((*vm, *ex));
                        }
                    },
                }
            },
        }
        if ex.frames.len() > peak.0 {
            peak.0 = ex.frames.len();
        }
        if ex.slots.len() > peak.1 {
            peak.1 = ex.slots.len();
        }
    }
}

/// The instruction the running frame's program counter points at, and
/// where it came from, when it points at one.
pub open spec fn fetched(chunk: &Chunk, ex: Execution) -> Option<(Instr, SpanOrigin)> {
    if ex.frames@.len() == 0 {
        None
    } else {
        let f = ex.frames@.last();
        let p = f.proto as int;
        if p < chunk.protos@.len() && f.pc < chunk.protos@[p].code@.len() && f.pc < chunk.protos@[p].lines@.len() {
            Some((chunk.protos@[p].code@[f.pc as int], chunk.protos@[p].lines@[f.pc as int]))
        } else {
            None
        }
    }
}

/// `ex2` is `ex` with the running frame's program counter moved past the
/// instruction it pointed at.
pub open spec fn moved_on(ex: Execution, ex2: Execution) -> bool {
    &&& ex2.frames@ == jumped(ex.frames@, (ex.frames@.last().pc + 1) as usize)
    &&& ex2.slots@ == ex.slots@
    &&& ex2.handlers@ == ex.handlers@
    &&& ex2.pending@ == ex.pending@
}

/// The instruction at the running frame's program counter, which then
/// points past it.
fn fetch<P: Platform>(vm: &Vm<P>, chunk: &Chunk, ex: &mut Execution) -> (r: Result<(Instr, SpanOrigin), Unwind>)
    ensures
        final(ex).fuel == old(ex).fuel,
        match fetched(chunk, *old(ex)) {
            Some(f) => r == Ok::<(Instr, SpanOrigin), Unwind>(f) && moved_on(*old(ex), *final(ex)),
            None => r is Err && *final(ex) == *old(ex),
        },
{
    let n = ex.frames.len();
    if n == 0 {
        return Err(raise(vm, Kind::Internal, SpanOrigin::Unknown, copy_str("no frame to run")));
    }
    let p = ex.frames[n - 1].proto as usize;
    let pc = ex.frames[n - 1].pc;
    if p >= chunk.protos.len() {
        return Err(raise(vm, Kind::Internal, SpanOrigin::Unknown, copy_str("a frame names no function")));
    }
    let proto = &chunk.protos[p];
    if pc >= proto.code.len() || pc >= proto.lines.len() {
        return Err(
            raise(vm, Kind::Internal, SpanOrigin::Unknown, copy_str("the program counter left its function")),
        );
    }
    let ins = proto.code[pc];
    let at = proto.lines[pc];
    set_pc(ex, pc + 1);
    Ok((ins, at))
}

/// `f` with its program counter at `pc`.
pub open spec fn at_pc(f: Frame, pc: usize) -> Frame {
    Frame { proto: f.proto, pc, base: f.base, dst: f.dst, ret_len: f.ret_len, closure: f.closure }
}

/// The frame stack with the running frame pointed at `pc`.
pub open spec fn jumped(frames: Seq<Frame>, pc: usize) -> Seq<Frame> {
    if frames.len() == 0 {
        frames
    } else {
        frames.update(frames.len() - 1, at_pc(frames.last(), pc))
    }
}

/// Point the running frame at `pc`.
fn set_pc(ex: &mut Execution, pc: usize)
    ensures
        final(ex).fuel == old(ex).fuel,
        final(ex).frames@ == jumped(old(ex).frames@, pc),
        final(ex).slots == old(ex).slots,
        final(ex).handlers == old(ex).handlers,
        final(ex).pending == old(ex).pending,
{
    match ex.frames.pop() {
        Some(f) => {
            ex.frames.push(Frame { pc, ..f });
        },
        None => {},
    }
}

/// A slot index, checked.
fn slot_at<P: Platform>(vm: &Vm<P>, ex: &Execution, base: usize, s: u32, at: SpanOrigin) -> (r: Result<usize, Unwind>)
    ensures
        r is Ok <==> base + s < ex.slots@.len(),
        r matches Ok(i) ==> i == base + s,
        r matches Err(u) ==> u.origin == at,
{
    match base.checked_add(s as usize) {
        Some(i) => {
            if i < ex.slots.len() {
                Ok(i)
            } else {
                Err(raise(vm, Kind::Internal, at, copy_str("a slot lies outside its frame")))
            }
        },
        None => {
            let n = ex.slots.len();
            assert(n == ex.slots@.len());
            Err(raise(vm, Kind::Internal, at, copy_str("a slot lies outside its frame")))
        },
    }
}

/// The running frame's base and closure.
fn top_frame<P: Platform>(vm: &Vm<P>, ex: &Execution, at: SpanOrigin) -> (r: Result<(usize, usize, Rc<Closure>), Unwind>)
    ensures
        r is Ok <==> ex.frames@.len() > 0,
        r matches Ok((fi, b, c)) ==> fi + 1 == ex.frames@.len() && b == ex.frames@.last().base
            && c == ex.frames@.last().closure,
        r matches Err(u) ==> u.origin == at,
{
    let n = ex.frames.len();
    if n == 0 {
        return Err(raise(vm, Kind::Internal, at, copy_str("no frame to run")));
    }
    let f = &ex.frames[n - 1];
    Ok((n - 1, f.base, f.closure.clone()))
}

/// The value a closure captured at `idx`, if it has one.
pub open spec fn captured(c: Closure, idx: u32) -> Option<Value> {
    match c {
        Closure::Fn { captures, .. } => if idx < captures@.len() {
            Some(captures@[idx as int])
        } else {
            None
        },
        Closure::Native(_) => None,
    }
}

fn capture_of<P: Platform>(vm: &Vm<P>, c: &Closure, idx: u32, at: SpanOrigin) -> (r: Result<Value, Unwind>)
    ensures
        match captured(*c, idx) {
            Some(v) => r == Ok::<Value, Unwind>(v),
            None => r matches Err(u) && u.origin == at,
        },
{
    match c {
        Closure::Fn { captures, .. } => {
            if (idx as usize) < captures.len() {
                Ok(captures[idx as usize].clone())
            } else {
                Err(raise(vm, Kind::Internal, at, copy_str("a capture index lies outside its closure")))
            }
        },
        Closure::Native(_) => Err(raise(vm, Kind::Internal, at, copy_str("a native function has no captures"))),
    }
}

/// One instruction. An unwind is born in exactly one place: here, or in a
/// function this calls.
#[verifier::rlimit(50)]
fn exec<P: Platform>(vm: &mut Vm<P>, ex: &mut Execution, chunk: &Chunk, ins: Instr, at: SpanOrigin) -> (r:
    Result<Step, Unwind>)
    ensures
        final(ex).fuel == old(ex).fuel,
        old(ex).frames@.len() == 0 ==> r is Err,
        old(ex).frames@.len() > 0 ==> stepped(*old(vm), *final(vm), *old(ex), *final(ex), chunk, ins, at, r),
{
    proof {
        reveal(stepped);
    }
    let (fi, base, me) = match top_frame(vm, ex, at) {
        Ok(t) => t,
        Err(u) => {
            return Err(u);
        },
    };
    match ins {
        Instr::Const { dst, k } => {
            let p = ex.frames[fi].proto as usize;
            if p >= chunk.protos.len() || (k as usize) >= chunk.protos[p].consts.len() {
                return Err(raise(vm, Kind::Internal, at, copy_str("a constant lies outside its pool")));
            }
            let v = chunk.protos[p].consts[k as usize].clone();
            let d = slot_at(vm, ex, base, dst, at)?;
            ex.slots.set(d, v);
        },
        Instr::Move { dst, src } => {
            let s = slot_at(vm, ex, base, src, at)?;
            let d = slot_at(vm, ex, base, dst, at)?;
            let v = ex.slots[s].clone();
            ex.slots.set(d, v);
        },
        Instr::GetGlobal { dst, name } => {
            let v = match vm.global(name) {
                Some(v) => v.clone(),
                None => {
                    let msg = cat3("`", vm.interner.name_or_empty(name.0), "` is not bound");
                    return Err(raise(vm, Kind::Unbound, at, msg));
                },
            };
            let d = slot_at(vm, ex, base, dst, at)?;
            ex.slots.set(d, v);
        },
        Instr::SetGlobal { name, src } => {
            let s = slot_at(vm, ex, base, src, at)?;
            let v = ex.slots[s].clone();
            vm.set_global(name, v);
        },
        Instr::GetCapture { dst, idx } => {
            let v = capture_of(vm, &me, idx, at)?;
            let d = slot_at(vm, ex, base, dst, at)?;
            ex.slots.set(d, v);
        },
        Instr::GetSelf { dst } => {
            let d = slot_at(vm, ex, base, dst, at)?;
            ex.slots.set(d, Value::Fn(me));
        },
        Instr::SetCell { cell, src } => {
            let c = slot_at(vm, ex, base, cell, at)?;
            let s = slot_at(vm, ex, base, src, at)?;
            let v = ex.slots[s].clone();
            match &ex.slots[c] {
                Value::Cell(id) => {
                    let id = *id;
                    if !vm.set_cell(id, v) {
                        return Err(raise(vm, Kind::Internal, at, copy_str("cell is no longer live")));
                    }
                },
                other => {
                    let msg = cat("`set-cell!` needs a cell, not a ", kind_name(other));
                    return Err(raise(vm, Kind::Type, at, msg));
                },
            }
        },
        Instr::Closure { dst, proto } => {
            // Captures are copied out of this frame now, not referenced.
            if (proto as usize) >= chunk.protos.len() {
                return Err(raise(vm, Kind::Internal, at, copy_str("a closure names no function")));
            }
            let target = &chunk.protos[proto as usize];
            let ghost srcs = target.captures@;
            let mut vals: Vec<Value> = Vec::new();
            let mut i: usize = 0;
            while i < target.captures.len()
                invariant
                    ex.fuel == old(ex).fuel,
                    ex.frames@ == old(ex).frames@,
                    ex.slots@ == old(ex).slots@,
                    ex.handlers@ == old(ex).handlers@,
                    ex.pending@ == old(ex).pending@,
                    old(ex).frames@.len() > 0,
                    base == old(ex).frames@.last().base,
                    me == old(ex).frames@.last().closure,
                    ins == (Instr::Closure { dst, proto }),
                    (proto as int) < chunk.protos@.len(),
                    target == chunk.protos@[proto as int],
                    srcs == target.captures@,
                    vals@.len() == i,
                    i <= srcs.len(),
                    forall|j: int| 0 <= j < i ==> #[trigger] capture_value(*old(ex), srcs[j]) == Some(vals@[j]),
                decreases target.captures@.len() - i,
            {
                let v = match target.captures[i] {
                    CaptureSrc::Local(s) => match slot_at(vm, ex, base, s, at) {
                        Ok(j) => ex.slots[j].clone(),
                        Err(u) => {
                            assert(capture_value(*old(ex), srcs[i as int]) is None);
                            proof {
                                reveal(stepped);
                            }
                            return Err(u);
                        },
                    },
                    CaptureSrc::Capture(c) => match capture_of(vm, &me, c, at) {
                        Ok(v) => v,
                        Err(u) => {
                            assert(capture_value(*old(ex), srcs[i as int]) is None);
                            proof {
                                reveal(stepped);
                            }
                            return Err(u);
                        },
                    },
                    CaptureSrc::SelfFn => Value::Fn(me.clone()),
                };
                vals.push(v);
                i = i + 1;
            }
            let id = vm.next_fn_id();
            let d = slot_at(vm, ex, base, dst, at)?;
            let ghost made = vals@;
            ex.slots.set(d, Value::Fn(Rc::new(Closure::Fn { proto, captures: Rc::new(vals), id })));
            assert(closure_made(ex.slots@[d as int], proto, made, old(vm).fn_ids));
        },
        Instr::Jump { target } => {
            set_pc(ex, target as usize);
        },
        Instr::JumpUnless { cond, target } => {
            // Only nil and false are falsy: 0, "" and an empty collection
            // are truthy.
            let c = slot_at(vm, ex, base, cond, at)?;
            let falsy = match &ex.slots[c] {
                Value::Nil => true,
                Value::Bool(b) => !*b,
                _ => false,
            };
            if falsy {
                set_pc(ex, target as usize);
            }
        },
        Instr::Call { dst, base: cb, argc } => {
            let callee = slot_at(vm, ex, base, cb, at)?;
            let d = slot_at(vm, ex, base, dst, at)?;
            match call(vm, ex, chunk, callee, argc, d, at)? {
                // A native returns immediately; there is no frame to push.
                Some(v) => {
                    if d < ex.slots.len() {
                        ex.slots.set(d, v);
                    }
                },
                None => {},
            }
        },
        Instr::TailCall { base: cb, argc } => {
            let callee = slot_at(vm, ex, base, cb, at)?;
            match tail_call(vm, ex, chunk, callee, argc, at)? {
                Some(v) => {
                    match ret(ex, v) {
                        Some(done) => {
                            return Ok(Step::Done(done));
                        },
                        None => {},
                    }
                },
                None => {},
            }
        },
        Instr::Return { src } => {
            let s = slot_at(vm, ex, base, src, at)?;
            let v = ex.slots[s].clone();
            match ret(ex, v) {
                Some(done) => {
                    return Ok(Step::Done(done));
                },
                None => {},
            }
        },
        Instr::Throw { src } => {
            let s = slot_at(vm, ex, base, src, at)?;
            return Err(Unwind::new(ex.slots[s].clone(), at));
        },
        Instr::PushHandler { catch, err } => {
            ex.handlers.push(Handler { frame: fi, target: catch as usize, err: Some(err) });
        },
        Instr::PushFinally { target } => {
            ex.handlers.push(Handler { frame: fi, target: target as usize, err: None });
        },
        Instr::PopHandler => {
            if ex.handlers.pop().is_none() {
                return Err(raise(vm, Kind::Internal, at, copy_str("POPHANDLER with no open handler region")));
            }
        },
        Instr::EndFinally => {
            // Only the unwinding copy of a cleanup ends here, so something is
            // parked: pick it back up and carry on unwinding.
            match ex.pending.pop() {
                Some(p) => {
                    return Err(p.unwind);
                },
                None => {
                    return Err(raise(vm, Kind::Internal, at, copy_str("ENDFINALLY outside an unwinding cleanup")));
                },
            }
        },
    }
    Ok(Step::Next)
}

/// The parked unwinds left once those whose cleanup an unwind at handler
/// depth `depth` has escaped are displaced: the ones parked deeper, from the
/// top.
pub open spec fn kept_pending(pending: Seq<Pending>, depth: int) -> Seq<Pending>
    decreases pending.len(),
{
    if pending.len() > 0 && pending.last().depth > depth {
        kept_pending(pending.drop_last(), depth)
    } else {
        pending
    }
}

/// The slot stack once every frame from `keep` up is released, each the way
/// a return releases it.
pub open spec fn released(slots: Seq<Value>, frames: Seq<Frame>, keep: int) -> Seq<Value>
    decreases frames.len(),
{
    if frames.len() <= keep || frames.len() == 0 {
        slots
    } else {
        released(cut(slots, frames.last().ret_len as int), frames.drop_last(), keep)
    }
}

/// What delivering unwind `u` does: with no handler record left, it comes
/// back (`r`), carrying what it displaced, and the machine is otherwise as
/// it was; otherwise the innermost record is popped, the frames above its
/// owner are released, and a catch binds the thrown value while a finally
/// parks the unwind and runs its cleanup.
pub open spec fn unwound(ex: Execution, u: Unwind, ex2: Execution, r: Option<Unwind>) -> bool {
    &&& r matches Some(e) ==> e.value == u.value && e.origin == u.origin
    &&& ex.handlers@.len() == 0 ==> {
        &&& r is Some
        &&& ex2.pending@.len() == 0
        &&& ex2.handlers@.len() == 0
        &&& ex2.frames@ == ex.frames@
        &&& ex2.slots@ == ex.slots@
    }
    &&& ex.handlers@.len() > 0 ==> {
        let h = ex.handlers@.last();
        let depth = ex.handlers@.len() - 1;
        let keep = h.frame + 1;
        let frames = ex.frames@.subrange(0, keep as int);
        let slots = released(ex.slots@, ex.frames@, keep as int);
        &&& ex2.handlers@ == ex.handlers@.drop_last()
        &&& r is None <==> h.frame < ex.frames@.len()
        &&& r is None ==> ex2.frames@ == jumped(frames, h.target)
        &&& r is None ==> match h.err {
            Some(slot) => {
                &&& ex2.slots@ == deliver(slots, frames[h.frame as int].base + slot, u.value)
                &&& ex2.pending@ == kept_pending(ex.pending@, depth)
            },
            None => {
                &&& ex2.slots@ == slots
                &&& ex2.pending@.len() > 0
                &&& ex2.pending@.drop_last() == kept_pending(ex.pending@, depth)
                &&& ex2.pending@.last().depth == depth
                &&& ex2.pending@.last().unwind.value == u.value
                &&& ex2.pending@.last().unwind.origin == u.origin
            },
        }
    }
}

/// Deliver an unwind to the innermost handler record, or hand it back when
/// no record is left. Exactly one record is popped, because every record is
/// entered when unwinding reaches it: a catch binds the value, a finally
/// parks it and runs the cleanup.
fn unwind(ex: &mut Execution, u: Unwind) -> (r: Option<Unwind>)
    ensures
        final(ex).fuel == old(ex).fuel,
        unwound(*old(ex), u, *final(ex), r),
{
    let ghost u0 = u;
    let mut u = u;
    let h = match ex.handlers.pop() {
        Some(h) => h,
        None => {
            // Nothing left to catch it, so every parked failure it displaced
            // is retained on it.
            while ex.pending.len() > 0
                invariant
                    ex.fuel == old(ex).fuel,
                    ex.handlers@.len() == 0,
                    ex.frames@ == old(ex).frames@,
                    ex.slots@ == old(ex).slots@,
                    u.value == u0.value,
                    u.origin == u0.origin,
                decreases ex.pending@.len(),
            {
                match ex.pending.pop() {
                    Some(p) => u.suppress(p.unwind),
                    None => {},
                }
            }
            return Some(u);
        },
    };
    let ghost depth = ex.handlers@.len() as int;
    // A parked unwind whose cleanup this one has escaped is displaced by it.
    while ex.pending.len() > 0 && ex.pending[ex.pending.len() - 1].depth > ex.handlers.len()
        invariant
            ex.fuel == old(ex).fuel,
            ex.handlers@ == old(ex).handlers@.drop_last(),
            depth == ex.handlers@.len(),
            ex.frames == old(ex).frames,
            ex.slots == old(ex).slots,
            kept_pending(ex.pending@, depth) == kept_pending(old(ex).pending@, depth),
            u.value == u0.value,
            u.origin == u0.origin,
        decreases ex.pending@.len(),
    {
        match ex.pending.pop() {
            Some(p) => u.suppress(p.unwind),
            None => {},
        }
    }
    assert(kept_pending(ex.pending@, depth) == ex.pending@);
    let ghost keep = h.frame + 1;
    // Frames above the record's owner are gone, through the same call a
    // normal return uses.
    while ex.frames.len() > 0 && ex.frames.len() - 1 > h.frame
        invariant
            ex.fuel == old(ex).fuel,
            ex.handlers@ == old(ex).handlers@.drop_last(),
            ex.pending@ == kept_pending(old(ex).pending@, depth),
            h == old(ex).handlers@.last(),
            keep == h.frame + 1,
            ex.frames@.len() <= old(ex).frames@.len(),
            ex.frames@ == old(ex).frames@.subrange(0, ex.frames@.len() as int),
            h.frame < old(ex).frames@.len() ==> keep <= ex.frames@.len(),
            released(ex.slots@, ex.frames@, keep) == released(old(ex).slots@, old(ex).frames@, keep),
            u.value == u0.value,
            u.origin == u0.origin,
        decreases ex.frames@.len(),
    {
        drop_frame(ex);
    }
    if h.frame >= ex.frames.len() {
        return Some(u);
    }
    assert(ex.frames@ =~= old(ex).frames@.subrange(0, keep as int));
    assert(released(ex.slots@, ex.frames@, keep) == ex.slots@);
    let base = ex.frames[h.frame].base;
    set_pc(ex, h.target);
    match h.err {
        // The handler binds the value alone; the position and the chain end
        // here.
        Some(slot) => {
            match base.checked_add(slot as usize) {
                Some(i) => {
                    if i < ex.slots.len() {
                        ex.slots.set(i, u.value);
                    }
                },
                None => {
                    let n = ex.slots.len();
                    assert(n == ex.slots@.len());
                },
            }
        },
        None => {
            let depth = ex.handlers.len();
            let ghost before = ex.pending@;
            ex.pending.push(Pending { depth, unwind: u });
            assert(ex.pending@.drop_last() =~= before);
        },
    }
    None
}

/// The slot stack cut back to `n` slots; one no longer than that is kept.
pub open spec fn cut(slots: Seq<Value>, n: int) -> Seq<Value> {
    if n <= slots.len() {
        slots.subrange(0, n)
    } else {
        slots
    }
}

/// `v` written at absolute slot `dst`, where that slot exists.
pub open spec fn deliver(slots: Seq<Value>, dst: int, v: Value) -> Seq<Value> {
    if 0 <= dst < slots.len() {
        slots.update(dst, v)
    } else {
        slots
    }
}

/// Pop one frame and give its slots back. The only place a frame is
/// released, so returning and unwinding cannot disagree about what that
/// means.
fn drop_frame(ex: &mut Execution) -> (r: Option<Frame>)
    ensures
        final(ex).fuel == old(ex).fuel,
        final(ex).handlers == old(ex).handlers,
        final(ex).pending == old(ex).pending,
        old(ex).frames@.len() > 0 ==> {
            &&& r == Some(old(ex).frames@.last())
            &&& final(ex).frames@ == old(ex).frames@.drop_last()
            &&& final(ex).slots@ == cut(old(ex).slots@, old(ex).frames@.last().ret_len as int)
        },
        old(ex).frames@.len() == 0 ==> r is None && final(ex).frames@.len() == 0 && final(ex).slots
            == old(ex).slots,
{
    match ex.frames.pop() {
        Some(f) => {
            ex.slots.truncate(f.ret_len);
            Some(f)
        },
        None => None,
    }
}

/// Pop the finished frame and deliver its value: `Some` when the outermost
/// frame returned.
fn ret(ex: &mut Execution, value: Value) -> (r: Option<Value>)
    ensures
        final(ex).fuel == old(ex).fuel,
        final(ex).handlers == old(ex).handlers,
        final(ex).pending == old(ex).pending,
        old(ex).frames@.len() <= 1 ==> r == Some(value) && final(ex).frames@.len() == 0,
        old(ex).frames@.len() > 1 ==> {
            &&& r is None
            &&& final(ex).frames@ == old(ex).frames@.drop_last()
            &&& final(ex).slots@ == deliver(
                cut(old(ex).slots@, old(ex).frames@.last().ret_len as int),
                old(ex).frames@.last().dst as int,
                value,
            )
        },
{
    match drop_frame(ex) {
        Some(f) => {
            if ex.frames.len() == 0 {
                return Some(value);
            }
            if f.dst < ex.slots.len() {
                ex.slots.set(f.dst, value);
            }
            None
        },
        None => Some(value),
    }
}

/// What is in the callee slot, resolved once for `call` and `tail_call`.
enum Callee {
    Native(NativeId),
    Bytecode(u32, Rc<Closure>),
}

fn callee_at<P: Platform>(vm: &Vm<P>, ex: &Execution, callee: usize, at: SpanOrigin) -> (r: Result<Callee, Unwind>)
    requires
        callee < ex.slots@.len(),
    ensures
        match ex.slots@[callee as int] {
            Value::Fn(c) => match *c {
                Closure::Fn { proto, .. } => r == Ok::<Callee, Unwind>(Callee::Bytecode(proto, c)),
                Closure::Native(id) => r == Ok::<Callee, Unwind>(Callee::Native(id)),
            },
            _ => r matches Err(u) && u.origin == at && raised_kind(vm.kws, Kind::NotCallable, u.value),
        },
{
    match &ex.slots[callee] {
        Value::Fn(c) => match &**c {
            Closure::Native(id) => Ok(Callee::Native(*id)),
            Closure::Fn { proto, .. } => Ok(Callee::Bytecode(*proto, c.clone())),
        },
        other => {
            let msg = cat("cannot call a ", kind_name(other));
            Err(raise(vm, Kind::NotCallable, at, msg))
        },
    }
}

/// A call pushed `frame` on top of the frames it found and entered it at
/// the frame's base.
pub open spec fn pushed(ex: Execution, ex2: Execution, chunk: &Chunk, proto: u32, argc: u32, frame: Frame) -> bool {
    &&& ex2.frames@ == ex.frames@.push(frame)
    &&& entered(ex.slots@, ex2.slots@, chunk.protos@[proto as int], argc, frame.base as int)
    &&& ex2.handlers == ex.handlers
    &&& ex2.pending == ex.pending
}

/// Push a frame for a bytecode callee, or run a native and hand back its
/// value. `Ok(None)` means a frame was pushed.
fn call<P: Platform>(
    vm: &mut Vm<P>,
    ex: &mut Execution,
    chunk: &Chunk,
    callee: usize,
    argc: u32,
    dst: usize,
    at: SpanOrigin,
) -> (r: Result<Option<Value>, Unwind>)
    ensures
        final(ex).fuel == old(ex).fuel,
        callee >= old(ex).slots@.len() ==> r is Err,
        callee < old(ex).slots@.len() ==> match old(ex).slots@[callee as int] {
            Value::Fn(c) => match *c {
                Closure::Fn { proto, .. } => {
                    &&& *final(vm) == *old(vm)
                    &&& (proto as int) < chunk.protos@.len() && !arity_ok(chunk.protos@[proto as int], argc) ==> (r matches Err(
                        u,
                    ) && raised_kind(old(vm).kws, Kind::Arity, u.value))
                    &&& r is Ok <==> enters(chunk, proto, argc, callee + 1)
                    &&& r is Ok ==> r == Ok::<Option<Value>, Unwind>(None) && pushed(
                        *old(ex),
                        *final(ex),
                        chunk,
                        proto,
                        argc,
                        Frame {
                            proto,
                            pc: 0,
                            base: (callee + 1) as usize,
                            dst,
                            ret_len: old(ex).slots@.len() as usize,
                            closure: c,
                        },
                    )
                },
                Closure::Native(id) => {
                    &&& r is Ok ==> (r matches Ok(Some(_)) && *final(ex) == *old(ex))
                    &&& (id.0 as int) < old(vm).natives@.len() && !native_fits(old(vm).natives@[id.0 as int], argc) ==> (r matches Err(
                        u,
                    ) && raised_kind(old(vm).kws, Kind::Arity, u.value))
                    &&& (id.0 as int) < old(vm).natives@.len() && native_fits(old(vm).natives@[id.0 as int], argc)
                        && args_exist(old(ex).slots@, callee as int, argc) ==> native_result(
                        *old(vm),
                        *final(vm),
                        old(vm).natives@[id.0 as int].prim,
                        call_window(old(ex).slots@, callee as int, argc),
                        at_once(r),
                    )
                },
            },
            _ => r matches Err(u) && raised_kind(old(vm).kws, Kind::NotCallable, u.value),
        },
        r matches Err(u) ==> u.origin == at,
{
    if callee >= ex.slots.len() {
        return Err(raise(vm, Kind::Internal, at, copy_str("a call window lies outside its frame")));
    }
    match callee_at(vm, ex, callee, at)? {
        Callee::Native(id) => match native_call(vm, ex, id, callee, argc, at) {
            Ok(v) => Ok(Some(v)),
            Err(u) => Err(u),
        },
        Callee::Bytecode(proto, c) => {
            // The arguments already sit where the callee's slots 0.. must
            // be, so a call copies nothing.
            let base = callee + 1;
            let ret_len = ex.slots.len();
            enter(vm, ex, chunk, proto, argc, base, at)?;
            ex.frames.push(Frame { proto, pc: 0, base, dst, ret_len, closure: c });
            Ok(None)
        },
    }
}

/// Whether the `argc` arguments above the callee slot are all on the stack.
pub open spec fn args_exist(slots: Seq<Value>, callee: int, argc: u32) -> bool {
    argc == 0 || callee + argc < slots.len()
}

/// The slot stack with the `argc` arguments above the callee slot moved
/// down to `base`.
pub open spec fn moved_down(slots: Seq<Value>, base: int, callee: int, argc: u32) -> Seq<Value> {
    Seq::new(
        slots.len(),
        |j: int|
            if base <= j < base + argc {
                slots[j - base + callee + 1]
            } else {
                slots[j]
            },
    )
}

/// The running frame, now running `proto` from its start in `closure`.
pub open spec fn reused(f: Frame, proto: u32, closure: Rc<Closure>) -> Frame {
    Frame { proto, pc: 0, base: f.base, dst: f.dst, ret_len: f.ret_len, closure }
}

/// Reuse the caller's frame: the arguments move down to its base, which is
/// what keeps a tail loop in constant space.
fn tail_call<P: Platform>(
    vm: &mut Vm<P>,
    ex: &mut Execution,
    chunk: &Chunk,
    callee: usize,
    argc: u32,
    at: SpanOrigin,
) -> (r: Result<Option<Value>, Unwind>)
    requires
        old(ex).frames@.len() > 0 ==> old(ex).frames@.last().base <= callee,
    ensures
        final(ex).fuel == old(ex).fuel,
        callee >= old(ex).slots@.len() ==> r is Err,
        callee < old(ex).slots@.len() ==> match old(ex).slots@[callee as int] {
            Value::Fn(c) => match *c {
                Closure::Fn { proto, .. } => {
                    let top = old(ex).frames@.last();
                    &&& old(ex).frames@.len() > 0 && args_exist(old(ex).slots@, callee as int, argc) && (proto as int)
                        < chunk.protos@.len() && !arity_ok(chunk.protos@[proto as int], argc) ==> (r matches Err(
                        u,
                    ) && raised_kind(old(vm).kws, Kind::Arity, u.value))
                    &&& r is Ok <==> old(ex).frames@.len() > 0 && args_exist(old(ex).slots@, callee as int, argc)
                        && enters(chunk, proto, argc, top.base as int)
                    &&& r is Ok ==> {
                        &&& r == Ok::<Option<Value>, Unwind>(None)
                        &&& final(ex).frames@ == old(ex).frames@.update(
                            old(ex).frames@.len() - 1,
                            reused(top, proto, c),
                        )
                        &&& entered(
                            moved_down(old(ex).slots@, top.base as int, callee as int, argc),
                            final(ex).slots@,
                            chunk.protos@[proto as int],
                            argc,
                            top.base as int,
                        )
                        &&& final(ex).handlers == old(ex).handlers
                        &&& final(ex).pending == old(ex).pending
                    }
                },
                Closure::Native(id) => {
                    &&& r is Ok ==> (r matches Ok(Some(_)) && *final(ex) == *old(ex))
                    &&& (id.0 as int) < old(vm).natives@.len() && !native_fits(old(vm).natives@[id.0 as int], argc) ==> (r matches Err(
                        u,
                    ) && raised_kind(old(vm).kws, Kind::Arity, u.value))
                    &&& (id.0 as int) < old(vm).natives@.len() && native_fits(old(vm).natives@[id.0 as int], argc)
                        && args_exist(old(ex).slots@, callee as int, argc) ==> native_result(
                        *old(vm),
                        *final(vm),
                        old(vm).natives@[id.0 as int].prim,
                        call_window(old(ex).slots@, callee as int, argc),
                        at_once(r),
                    )
                },
            },
            _ => r matches Err(u) && raised_kind(old(vm).kws, Kind::NotCallable, u.value),
        },
        r matches Err(u) ==> u.origin == at,
{
    if callee >= ex.slots.len() {
        return Err(raise(vm, Kind::Internal, at, copy_str("a call window lies outside its frame")));
    }
    match callee_at(vm, ex, callee, at)? {
        Callee::Native(id) => match native_call(vm, ex, id, callee, argc, at) {
            Ok(v) => Ok(Some(v)),
            Err(u) => Err(u),
        },
        Callee::Bytecode(proto, c) => {
            let n = ex.frames.len();
            if n == 0 {
                return Err(raise(vm, Kind::Internal, at, copy_str("no frame to run")));
            }
            let base = ex.frames[n - 1].base;
            let ghost old_slots = ex.slots@;
            assert(old_slots.len() == ex.slots.len());
            // Copying ascending is safe: the base is at or below the callee,
            // so each argument's destination is below its source.
            let mut i: usize = 0;
            while i < argc as usize
                invariant
                    ex.fuel == old(ex).fuel,
                    ex.frames == old(ex).frames,
                    ex.handlers == old(ex).handlers,
                    ex.pending == old(ex).pending,
                    ex.frames@.len() == n,
                    n > 0,
                    base == old(ex).frames@.last().base,
                    base <= callee,
                    callee < old_slots.len(),
                    old_slots == old(ex).slots@,
                    old_slots[callee as int] == Value::Fn(c),
                    *c matches Closure::Fn { proto: p2, .. } && p2 == proto,
                    i <= argc,
                    ex.slots@.len() == old_slots.len(),
                    old_slots.len() <= usize::MAX,
                    forall|j: int|
                        0 <= j < old_slots.len() ==> #[trigger] ex.slots@[j] == (if base <= j < base + i {
                            old_slots[j - base + callee + 1]
                        } else {
                            old_slots[j]
                        }),
                    i > 0 ==> callee + i < old_slots.len(),
                decreases argc - i,
            {
                let from = match callee.checked_add(1 + i) {
                    Some(x) => x,
                    None => {
                        return Err(raise(vm, Kind::Internal, at, copy_str("a call window lies outside its frame")));
                    },
                };
                let to = match base.checked_add(i) {
                    Some(x) => x,
                    None => {
                        return Err(raise(vm, Kind::Internal, at, copy_str("a call window lies outside its frame")));
                    },
                };
                if from >= ex.slots.len() || to >= ex.slots.len() {
                    return Err(raise(vm, Kind::Internal, at, copy_str("a call window lies outside its frame")));
                }
                let v = ex.slots[from].clone();
                ex.slots.set(to, v);
                i = i + 1;
            }
            assert(ex.slots@ =~= moved_down(old_slots, base as int, callee as int, argc));
            enter(vm, ex, chunk, proto, argc, base, at)?;
            match ex.frames.pop() {
                Some(f) => {
                    ex.frames.push(Frame { proto, pc: 0, closure: c, ..f });
                },
                None => {},
            }
            Ok(None)
        },
    }
}

/// Text for an arity refusal: "`name` takes N argument(s), given M".
fn arity_message(name: &str, variadic: bool, fixed: u32, argc: u32) -> (r: String)
    ensures
        r@ == "`"@ + name@ + "` takes "@ + (if variadic {
            "at least "@
        } else {
            Seq::<char>::empty()
        }) + nat_digits(fixed as nat) + " argument(s), given "@ + nat_digits(argc as nat),
{
    let mut msg = cat3("`", name, "` takes ");
    if variadic {
        push_str(&mut msg, "at least ");
    }
    let f = nat_to_text(fixed as u64);
    push_str(&mut msg, f.as_str());
    push_str(&mut msg, " argument(s), given ");
    let a = nat_to_text(argc as u64);
    push_str(&mut msg, a.as_str());
    msg
}

/// How many parameters a function binds before its rest parameter.
pub open spec fn fixed_params(p: Proto) -> int {
    if p.variadic && p.params > 0 {
        p.params - 1
    } else {
        p.params as int
    }
}

/// Whether a call with `argc` arguments fits the function's parameters.
pub open spec fn arity_ok(p: Proto, argc: u32) -> bool {
    fixed_params(p) <= argc && (p.variadic || argc == fixed_params(p))
}

/// The slots a call's frame takes: the function's own, or more when it is
/// given more arguments than that.
pub open spec fn frame_size(p: Proto, argc: u32) -> int {
    if p.slots > argc {
        p.slots as int
    } else {
        argc as int
    }
}

/// Slot `j` of a stack, nil past its end.
pub open spec fn slot_or_nil(slots: Seq<Value>, j: int) -> Value {
    if 0 <= j < slots.len() {
        slots[j]
    } else {
        Value::Nil
    }
}

/// The arguments a rest parameter collects.
pub open spec fn rest_args(slots: Seq<Value>, p: Proto, argc: u32, base: int) -> Seq<Value> {
    Seq::new((argc - fixed_params(p)) as nat, |m: int| slot_or_nil(slots, base + fixed_params(p) + m))
}

/// Slot `i` after entering a frame at `base`: nil from the end of the
/// bound arguments to the top of the frame, and what it held before
/// elsewhere.
pub open spec fn entered_slot(slots: Seq<Value>, p: Proto, argc: u32, base: int, i: int) -> Value {
    let dead = if p.variadic {
        base + fixed_params(p)
    } else {
        base + argc
    };
    if dead <= i < base + frame_size(p, argc) {
        Value::Nil
    } else {
        slot_or_nil(slots, i)
    }
}

/// The slot stack after entering a frame at `base`: grown to the frame's
/// top, every slot as `entered_slot` says, and in a variadic frame the rest
/// parameter's slot holding a list of the remaining arguments.
pub open spec fn entered(old: Seq<Value>, new: Seq<Value>, p: Proto, argc: u32, base: int) -> bool {
    let top = base + frame_size(p, argc);
    let rest = base + fixed_params(p);
    &&& new.len() == (if old.len() > top {
        old.len() as int
    } else {
        top
    })
    &&& forall|i: int|
        0 <= i < new.len() && !(p.variadic && i == rest) ==> #[trigger] new[i] == entered_slot(
            old,
            p,
            argc,
            base,
            i,
        )
    &&& p.variadic && rest < new.len() ==> (new[rest] matches Value::List(l) && l@ == rest_args(
        old,
        p,
        argc,
        base,
    ))
}

/// Whether entering `proto` with `argc` arguments at `base` succeeds: the
/// function exists, the arguments fit its parameters, and the frame fits
/// in memory.
pub open spec fn enters(chunk: &Chunk, proto: u32, argc: u32, base: int) -> bool {
    &&& (proto as int) < chunk.protos@.len()
    &&& arity_ok(chunk.protos@[proto as int], argc)
    &&& base + frame_size(chunk.protos@[proto as int], argc) <= usize::MAX
}

/// The callee prologue: check arity once, at call time, size the frame, and
/// pack a rest parameter into a list (never nil).
#[verifier::loop_isolation(false)]
fn enter<P: Platform>(
    vm: &Vm<P>,
    ex: &mut Execution,
    chunk: &Chunk,
    proto: u32,
    argc: u32,
    base: usize,
    at: SpanOrigin,
) -> (r: Result<(), Unwind>)
    ensures
        final(ex).fuel == old(ex).fuel,
        final(ex).frames == old(ex).frames,
        final(ex).handlers == old(ex).handlers,
        final(ex).pending == old(ex).pending,
        r is Ok <==> enters(chunk, proto, argc, base as int),
        (proto as int) < chunk.protos@.len() && !arity_ok(chunk.protos@[proto as int], argc) ==> (r matches Err(
            u,
        ) && raised_kind(vm.kws, Kind::Arity, u.value)),
        r is Ok ==> entered(old(ex).slots@, final(ex).slots@, chunk.protos@[proto as int], argc, base as int),
        r matches Err(u) ==> u.origin == at,
{
    if (proto as usize) >= chunk.protos.len() {
        return Err(raise(vm, Kind::Internal, at, copy_str("a closure names no function")));
    }
    let p = &chunk.protos[proto as usize];
    let fixed = if p.variadic && p.params > 0 {
        p.params - 1
    } else {
        p.params
    };
    if argc < fixed || (!p.variadic && argc > fixed) {
        let name = match p.name {
            Some(s) => vm.interner.name_or_empty(s.0),
            None => "fn",
        };
        return Err(raise(vm, Kind::Arity, at, arity_message(name, p.variadic, fixed, argc)));
    }
    // Whatever the call needs: no maximum arity is set, so the compiler
    // cannot have reserved it.
    let want: usize = if (p.slots as usize) > (argc as usize) {
        p.slots as usize
    } else {
        argc as usize
    };
    let top = match base.checked_add(want) {
        Some(t) => t,
        None => {
            return Err(raise(vm, Kind::Internal, at, copy_str("a frame does not fit")));
        },
    };
    let ghost old_slots = ex.slots@;
    let ghost grown: int = if old_slots.len() > top {
        old_slots.len() as int
    } else {
        top as int
    };
    while ex.slots.len() < top
        invariant
            ex.fuel == old(ex).fuel,
            ex.frames == old(ex).frames,
            ex.handlers == old(ex).handlers,
            ex.pending == old(ex).pending,
            old_slots.len() <= ex.slots@.len() <= grown,
            forall|i: int| 0 <= i < ex.slots@.len() ==> #[trigger] ex.slots@[i] == slot_or_nil(old_slots, i),
        decreases top - ex.slots@.len(),
    {
        ex.slots.push(Value::Nil);
    }
    // Everything above the arguments starts as nil, so a frame's contents
    // are a function of the call and not of whatever ran here last.
    let mut s = base + argc as usize;
    while s < top
        invariant
            ex.slots@.len() == grown,
            base + argc <= s <= top,
            ex.fuel == old(ex).fuel,
            ex.frames == old(ex).frames,
            ex.handlers == old(ex).handlers,
            ex.pending == old(ex).pending,
            forall|i: int|
                0 <= i < ex.slots@.len() ==> #[trigger] ex.slots@[i] == (if base + argc <= i < s {
                    Value::Nil
                } else {
                    slot_or_nil(old_slots, i)
                }),
        decreases top - s,
    {
        ex.slots.set(s, Value::Nil);
        s = s + 1;
    }
    if p.variadic {
        // Packed in place: the slots past the fixed parameters are dead the
        // moment they are collected.
        let from = base + fixed as usize;
        let to = base + argc as usize;
        let mut rest: Vec<Value> = Vec::new();
        let mut k = from;
        while k < to
            invariant
                ex.slots@.len() == grown,
                from <= k <= to,
                to <= top,
                rest@ == Seq::new((k - from) as nat, |m: int| slot_or_nil(old_slots, from + m)),
            decreases to - k,
        {
            rest.push(ex.slots[k].clone());
            k = k + 1;
            assert(rest@ =~= Seq::new((k - from) as nat, |m: int| slot_or_nil(old_slots, from + m)));
        }
        let mut z = from;
        while z < top
            invariant
                ex.slots@.len() == grown,
                from <= z <= top,
                ex.fuel == old(ex).fuel,
                ex.frames == old(ex).frames,
                ex.handlers == old(ex).handlers,
                ex.pending == old(ex).pending,
                forall|i: int|
                    0 <= i < ex.slots@.len() ==> #[trigger] ex.slots@[i] == (if from <= i < z || base + argc
                        <= i < top {
                        Value::Nil
                    } else {
                        slot_or_nil(old_slots, i)
                    }),
            decreases top - z,
        {
            ex.slots.set(z, Value::Nil);
            z = z + 1;
        }
        let ghost packed = rest@;
        if from < ex.slots.len() {
            ex.slots.set(from, Value::List(Rc::new(rest)));
        }
        assert(packed =~= rest_args(old_slots, *p, argc, base as int));
    }
    Ok(())
}

/// The `argc` arguments above the callee slot.
pub open spec fn call_window(slots: Seq<Value>, callee: int, argc: u32) -> Seq<Value> {
    slots.subrange(callee + 1, callee + 1 + argc)
}

/// A native call came back as the primitive says it does on these
/// arguments: its value, or a failure where the primitive fails.
pub open spec fn native_result<P: Platform>(
    vm: Vm<P>,
    vm2: Vm<P>,
    prim: Prim,
    args: Seq<Value>,
    r: Result<Value, Unwind>,
) -> bool {
    exists|res: Result<Value, Fault>|
        #[trigger] crate::prim::prim_post(vm, vm2, prim, args, res) && match res {
            Ok(v) => r == Ok::<Value, Unwind>(v),
            Err(_) => r is Err,
        }
}

/// The value a call handed back at once, if it did.
pub open spec fn at_once(r: Result<Option<Value>, Unwind>) -> Result<Value, Unwind> {
    match r {
        Ok(Some(v)) => Ok(v),
        Ok(None) => Ok(Value::Nil),
        Err(u) => Err(u),
    }
}

/// The fewest arguments a native takes, and whether it takes more.
pub open spec fn native_arity(n: Native) -> (u32, bool) {
    match n.prim {
        Prim::Adapter(_) => (n.min, n.variadic),
        p => crate::prim::prim_arity_spec(p),
    }
}

/// Whether `argc` arguments fit a native's arity.
pub open spec fn native_fits(n: Native, argc: u32) -> bool {
    native_arity(n).0 <= argc && (native_arity(n).1 || argc == native_arity(n).0)
}

/// Run a native on the arguments in the call window. A native's fault has no
/// position; it takes the calling instruction's.
#[verifier::loop_isolation(false)]
fn native_call<P: Platform>(
    vm: &mut Vm<P>,
    ex: &Execution,
    id: NativeId,
    callee: usize,
    argc: u32,
    at: SpanOrigin,
) -> (r: Result<Value, Unwind>)
    requires
        callee < ex.slots@.len(),
    ensures
        r matches Err(u) ==> u.origin == at,
        (id.0 as int) < old(vm).natives@.len() && !native_fits(old(vm).natives@[id.0 as int], argc) ==> (r matches Err(
            u,
        ) && raised_kind(old(vm).kws, Kind::Arity, u.value)),
        (id.0 as int) < old(vm).natives@.len() && native_fits(old(vm).natives@[id.0 as int], argc) && args_exist(
            ex.slots@,
            callee as int,
            argc,
        ) ==> native_result(
            *old(vm),
            *final(vm),
            old(vm).natives@[id.0 as int].prim,
            call_window(ex.slots@, callee as int, argc),
            r,
        ),
{
    let i = id.0 as usize;
    if i >= vm.natives.len() {
        return Err(raise(vm, Kind::Internal, at, copy_str("a native id names no primitive")));
    }
    let prim = vm.natives[i].prim;
    let (min, variadic) = match prim {
        Prim::Adapter(_) => (vm.natives[i].min, vm.natives[i].variadic),
        _ => crate::prim::prim_arity(prim),
    };
    let name = vm.natives[i].name;
    if argc < min || (!variadic && argc > min) {
        let msg = arity_message(vm.interner.name_or_empty(name.0), variadic, min, argc);
        return Err(raise(vm, Kind::Arity, at, msg));
    }
    let mut args: Vec<Value> = Vec::new();
    let mut k: usize = 0;
    let n = ex.slots.len();
    while k < argc as usize
        invariant
            args@.len() == k,
            k <= argc as usize,
            forall|t: int| 0 <= t < k ==> #[trigger] args@[t] == ex.slots@[callee + 1 + t],
            n == ex.slots@.len(),
        decreases argc - k,
    {
        let j = match callee.checked_add(1 + k) {
            Some(j) => j,
            None => {
                return Err(raise(vm, Kind::Internal, at, copy_str("a call window lies outside its frame")));
            },
        };
        if j >= ex.slots.len() {
            return Err(raise(vm, Kind::Internal, at, copy_str("a call window lies outside its frame")));
        }
        args.push(ex.slots[j].clone());
        k = k + 1;
    }
    proof {
        if args_exist(ex.slots@, callee as int, argc) {
            assert(args@ =~= call_window(ex.slots@, callee as int, argc));
        }
    }
    match crate::prim::call(vm, prim, &args) {
        Ok(v) => Ok(v),
        Err(e) => {
            let v = vm.fault_value(&e);
            Err(Unwind::new(v, at))
        },
    }
}

} // verus!
