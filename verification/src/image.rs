//! Snapshots: a suspended run as a value that can be paused, moved and
//! resumed.
//!
//! An `Image` is one `Vm` plus one suspended `Execution`, with the pointers
//! taken out. Everything that lived behind an `Rc` becomes an `Obj` in one
//! table, named by its index, so structure shared in the heap is encoded once
//! and stays shared across the round trip.

use crate::bytecode::Chunk;
use crate::error::SpanOrigin;
use crate::host::{Host, RECONSTRUCTIBLE};
use crate::platform::Platform;
use crate::text::copy_str;
use crate::value::{
    copy_bytes, same_object, BufferId, BytesObj, CellId, Closure, HandleId, Interner, KwId, NativeId, StrObj,
    SymId, Value,
};
use crate::vm::{free_ok, CellEntry, Execution, Frame, HandleTable, Handler, Pending, Unwind, Vm};
use std::rc::Rc;
use vstd::prelude::*;

verus! {

broadcast use vstd::std_specs::vec::axiom_vec_decreases_to_view;

/// Why a snapshot was refused.
#[derive(Debug, PartialEq, Eq, Structural)]
pub enum SnapshotError {
    /// A file or socket is open. Checkpointing a resource is not something an
    /// image does, so a live one is a refusal rather than a best effort. The
    /// count is of those resources: the standard streams are recreated by any
    /// VM of this build and never count.
    SnapshotHasLiveHandles(usize),
    /// The image was taken from other code. It carries a fingerprint of the
    /// code rather than the code, and this is the check that makes "same
    /// build" something other than an assumption.
    ChunkMismatch,
}

/// A `Value` with the pointers taken out: self-contained and `Copy`.
/// Anything that lived behind an `Rc` became an `Obj`.
#[derive(Clone, Copy, Debug, PartialEq, Eq, Structural)]
pub enum Ref {
    Nil,
    Bool(bool),
    /// The bit pattern, so `-0.0` and `##NaN` survive exactly.
    Float(u64),
    Int(i64),
    Sym(u32),
    Keyword(u32),
    Cell(u32, u32),
    Handle(u32, u32),
    Buffer(u32, u32),
    /// Index into the image's object table.
    Obj(usize),
}

/// Everything that lived behind an `Rc`, flattened. Children are `Ref`s, so
/// an `Obj` is one level deep however deep the value was.
#[derive(Debug)]
pub enum Obj {
    Str(String),
    Bytes(Vec<u8>),
    List(Vec<Ref>),
    Vec(Vec<Ref>),
    Dict(Vec<(Ref, Ref)>),
    Fn { proto: u32, captures: Vec<Ref>, id: u64 },
    Native(u32),
}

#[derive(Debug)]
pub struct FrameDto {
    proto: u32,
    pc: usize,
    base: usize,
    dst: usize,
    ret_len: usize,
    /// An object index, so a closure shared between a frame and a slot stays
    /// one closure across the round trip.
    closure: usize,
}

#[derive(Debug)]
pub struct HandlerDto {
    frame: usize,
    target: usize,
    err: Option<u32>,
}

/// An unwind parked mid-cleanup. It travels: a resume that forgot it would
/// drop the original failure and report success.
#[derive(Debug)]
pub struct PendingDto {
    depth: usize,
    value: Ref,
    origin: SpanOrigin,
    suppressed: Vec<Ref>,
}

/// One `Vm` plus one suspended `Execution`, and nothing else.
#[derive(Debug)]
pub struct Image {
    fingerprint: u64,
    names: Vec<String>,
    objects: Vec<Obj>,
    globals: Vec<Option<(u32, u32)>>,
    cells: Vec<(u32, Ref)>,
    /// The handle table. No file or socket is open in it: a capture refuses
    /// while one is, so every slot holds a standard stream or nothing. The
    /// generations of closed slots still matter, because a later open reuses
    /// an index and the id it hands out has to differ from the retired one.
    handle_generations: Vec<u32>,
    handle_hosts: Vec<Option<Host>>,
    free_handles: Vec<u32>,
    gensym: u64,
    fn_ids: u64,
    out: String,
    frames: Vec<FrameDto>,
    slots: Vec<Ref>,
    handlers: Vec<HandlerDto>,
    pending: Vec<PendingDto>,
    fuel: u64,
}

// --- what an image means -------------------------------------------------------

/// `r` names only objects below `n`.
pub open spec fn ref_below(r: Ref, n: int) -> bool {
    r matches Ref::Obj(id) ==> id < n
}

/// Every child of `o` names an object below `n`.
pub open spec fn obj_below(o: Obj, n: int) -> bool {
    match o {
        Obj::List(rs) => forall|j: int| 0 <= j < rs@.len() ==> ref_below(#[trigger] rs@[j], n),
        Obj::Vec(rs) => forall|j: int| 0 <= j < rs@.len() ==> ref_below(#[trigger] rs@[j], n),
        Obj::Dict(ps) => forall|j: int|
            0 <= j < ps@.len() ==> ref_below((#[trigger] ps@[j]).0, n) && ref_below(ps@[j].1, n),
        Obj::Fn { captures, .. } => forall|j: int|
            0 <= j < captures@.len() ==> ref_below(#[trigger] captures@[j], n),
        _ => true,
    }
}

/// Each object names only objects before it, so the table decodes in one
/// forward pass.
pub open spec fn topological(objs: Seq<Obj>) -> bool {
    forall|i: int| 0 <= i < objs.len() ==> obj_below(#[trigger] objs[i], i)
}

/// `objs` starts with `prefix`.
pub open spec fn extends(prefix: Seq<Obj>, objs: Seq<Obj>) -> bool {
    prefix.len() <= objs.len() && forall|i: int| 0 <= i < prefix.len() ==> #[trigger] objs[i] == prefix[i]
}

/// The object `r` names in `objs`, if it names one.
pub open spec fn obj_at(objs: Seq<Obj>, r: Ref) -> Option<Obj> {
    match r {
        Ref::Obj(id) => if id < objs.len() {
            Some(objs[id as int])
        } else {
            None
        },
        _ => None,
    }
}

/// With the object table `objs`, `r` stands for `v`: the same immediate, or
/// an object that stands for `v`.
pub open spec fn represents(objs: Seq<Obj>, r: Ref, v: Value) -> bool
    decreases v, 1nat,
{
    match v {
        Value::Nil => r == Ref::Nil,
        Value::Bool(b) => r == Ref::Bool(b),
        Value::Int(i) => r == Ref::Int(i),
        Value::Float(f) => r == Ref::Float(f),
        Value::Sym(s) => r == Ref::Sym(s.0),
        Value::Keyword(k) => r == Ref::Keyword(k.0),
        Value::Cell(c) => r == Ref::Cell(c.0, c.1),
        Value::Handle(h) => r == Ref::Handle(h.0, h.1),
        Value::Buffer(b) => r == Ref::Buffer(b.0, b.1),
        _ => match obj_at(objs, r) {
            Some(o) => stands_for(objs, o, v),
            None => false,
        },
    }
}

/// The object `o` is of `v`'s kind, and its contents stand for `v`'s.
pub open spec fn stands_for(objs: Seq<Obj>, o: Obj, v: Value) -> bool
    decreases v, 0nat,
{
    match (o, v) {
        (Obj::Str(t), Value::Str(s)) => t@ == s.0@,
        (Obj::Bytes(t), Value::Bytes(b)) => t@ == b.0@,
        (Obj::List(rs), Value::List(l)) => rs@.len() == l@.len() && forall|j: int|
            0 <= j < l@.len() ==> represents(objs, rs@[j], #[trigger] l@[j]),
        (Obj::Vec(rs), Value::Vec(l)) => rs@.len() == l@.len() && forall|j: int|
            0 <= j < l@.len() ==> represents(objs, rs@[j], #[trigger] l@[j]),
        (Obj::Dict(ps), Value::Dict(m)) => ps@.len() == m@.len() && forall|j: int|
            0 <= j < m@.len() ==> represents(objs, ps@[j].0, (#[trigger] m@[j]).0) && represents(
                objs,
                ps@[j].1,
                m@[j].1,
            ),
        (Obj::Fn { proto: p, captures: rs, id: i }, Value::Fn(c)) => match *c {
            Closure::Fn { proto, captures, id } => p == proto && i == id && rs@.len()
                == captures@.len() && forall|j: int|
                0 <= j < captures@.len() ==> represents(objs, rs@[j], #[trigger] captures@[j]),
            Closure::Native(_) => false,
        },
        (Obj::Native(m), Value::Fn(c)) => match *c {
            Closure::Native(n) => m == n.0,
            Closure::Fn { .. } => false,
        },
        _ => false,
    }
}

/// Two values alike in everything but where they live: the same immediates,
/// the same text and bytes, the same elements in the same order, the same
/// functions with alike captures.
pub open spec fn alike(a: Value, b: Value) -> bool
    decreases a,
{
    match (a, b) {
        (Value::Str(x), Value::Str(y)) => x.0@ == y.0@,
        (Value::Bytes(x), Value::Bytes(y)) => x.0@ == y.0@,
        (Value::List(x), Value::List(y)) => x@.len() == y@.len() && forall|j: int|
            0 <= j < x@.len() ==> alike(#[trigger] x@[j], y@[j]),
        (Value::Vec(x), Value::Vec(y)) => x@.len() == y@.len() && forall|j: int|
            0 <= j < x@.len() ==> alike(#[trigger] x@[j], y@[j]),
        (Value::Dict(x), Value::Dict(y)) => x@.len() == y@.len() && forall|j: int|
            0 <= j < x@.len() ==> alike((#[trigger] x@[j]).0, y@[j].0) && alike(x@[j].1, y@[j].1),
        (Value::Fn(x), Value::Fn(y)) => match (*x, *y) {
            (Closure::Fn { proto, captures, id }, Closure::Fn { proto: q, captures: d, id: k }) => proto
                == q && id == k && captures@.len() == d@.len() && forall|j: int|
                0 <= j < captures@.len() ==> alike(#[trigger] captures@[j], d@[j]),
            (Closure::Native(n), Closure::Native(m)) => n == m,
            _ => false,
        },
        (Value::Str(_), _) => false,
        (Value::Bytes(_), _) => false,
        (Value::List(_), _) => false,
        (Value::Vec(_), _) => false,
        (Value::Dict(_), _) => false,
        (Value::Fn(_), _) => false,
        _ => a == b,
    }
}

/// What an object table has for `v` stays right as the table grows.
pub proof fn lemma_represents_extends(objs: Seq<Obj>, more: Seq<Obj>, r: Ref, v: Value)
    requires
        extends(objs, more),
        represents(objs, r, v),
    ensures
        represents(more, r, v),
    decreases v, 1nat,
{
    if let Some(o) = obj_at(objs, r) {
        assert(more[r->Obj_0 as int] == o);
        lemma_stands_extends(objs, more, o, v);
    }
}

/// An object that stands for `v` keeps doing so as the table grows.
pub proof fn lemma_stands_extends(objs: Seq<Obj>, more: Seq<Obj>, o: Obj, v: Value)
    requires
        extends(objs, more),
        stands_for(objs, o, v),
    ensures
        stands_for(more, o, v),
    decreases v, 0nat,
{
    match (o, v) {
        (Obj::List(rs), Value::List(l)) => {
            assert forall|j: int| 0 <= j < l@.len() implies represents(more, rs@[j], #[trigger] l@[j]) by {
                lemma_represents_extends(objs, more, rs@[j], l@[j]);
            }
        },
        (Obj::Vec(rs), Value::Vec(l)) => {
            assert forall|j: int| 0 <= j < l@.len() implies represents(more, rs@[j], #[trigger] l@[j]) by {
                lemma_represents_extends(objs, more, rs@[j], l@[j]);
            }
        },
        (Obj::Dict(ps), Value::Dict(m)) => {
            assert forall|j: int| 0 <= j < m@.len() implies represents(more, ps@[j].0, (#[trigger] m@[j]).0)
                && represents(more, ps@[j].1, m@[j].1) by {
                lemma_represents_extends(objs, more, ps@[j].0, m@[j].0);
                lemma_represents_extends(objs, more, ps@[j].1, m@[j].1);
            }
        },
        (Obj::Fn { captures: rs, .. }, Value::Fn(c)) => {
            match *c {
                Closure::Fn { captures, .. } => {
                    assert forall|j: int| 0 <= j < captures@.len() implies represents(
                        more,
                        rs@[j],
                        #[trigger] captures@[j],
                    ) by {
                        lemma_represents_extends(objs, more, rs@[j], captures@[j]);
                    }
                },
                Closure::Native(_) => {},
            }
        },
        _ => {},
    }
}

/// One reference in one table stands for values that are alike.
pub proof fn lemma_represents_alike(objs: Seq<Obj>, r: Ref, a: Value, b: Value)
    requires
        represents(objs, r, a),
        represents(objs, r, b),
    ensures
        alike(a, b),
    decreases a,
{
    match a {
        Value::List(x) => {
            let y = b->List_0;
            let rs = objs[r->Obj_0 as int]->List_0;
            assert forall|j: int| 0 <= j < x@.len() implies alike(#[trigger] x@[j], y@[j]) by {
                lemma_represents_alike(objs, rs@[j], x@[j], y@[j]);
            }
        },
        Value::Vec(x) => {
            let y = b->Vec_0;
            let rs = objs[r->Obj_0 as int]->Vec_0;
            assert forall|j: int| 0 <= j < x@.len() implies alike(#[trigger] x@[j], y@[j]) by {
                lemma_represents_alike(objs, rs@[j], x@[j], y@[j]);
            }
        },
        Value::Dict(x) => {
            let y = b->Dict_0;
            let ps = objs[r->Obj_0 as int]->Dict_0;
            assert forall|j: int| 0 <= j < x@.len() implies alike((#[trigger] x@[j]).0, y@[j].0) && alike(
                x@[j].1,
                y@[j].1,
            ) by {
                lemma_represents_alike(objs, ps@[j].0, x@[j].0, y@[j].0);
                lemma_represents_alike(objs, ps@[j].1, x@[j].1, y@[j].1);
            }
        },
        Value::Fn(x) => {
            let y = b->Fn_0;
            match *x {
                Closure::Fn { captures, .. } => {
                    match *y {
                        Closure::Fn { captures: d, .. } => {
                            let rs = objs[r->Obj_0 as int]->captures;
                            assert forall|j: int| 0 <= j < captures@.len() implies alike(
                                #[trigger] captures@[j],
                                d@[j],
                            ) by {
                                lemma_represents_alike(objs, rs@[j], captures@[j], d@[j]);
                            }
                        },
                        Closure::Native(_) => {},
                    }
                },
                Closure::Native(_) => {},
            }
        },
        Value::Str(_) => {},
        Value::Bytes(_) => {},
        _ => {},
    }
}


/// A reference that stands for something names an object of the table.
pub proof fn lemma_represents_below(objs: Seq<Obj>, r: Ref, v: Value)
    requires
        represents(objs, r, v),
    ensures
        ref_below(r, objs.len() as int),
{
}

/// References that stand for something name objects of the table.
pub proof fn lemma_refs_below(objs: Seq<Obj>, rs: Seq<Ref>, vs: Seq<Value>)
    requires
        rs.len() == vs.len(),
        forall|j: int| 0 <= j < vs.len() ==> represents(objs, rs[j], #[trigger] vs[j]),
    ensures
        forall|j: int| 0 <= j < rs.len() ==> ref_below(#[trigger] rs[j], objs.len() as int),
{
    assert forall|j: int| 0 <= j < rs.len() implies ref_below(#[trigger] rs[j], objs.len() as int) by {
        lemma_represents_below(objs, rs[j], vs[j]);
    }
}

// --- what an image holds ---------------------------------------------------------

/// A global as the image keeps it: the cell's index and generation.
pub open spec fn global_pair(g: Option<CellId>) -> Option<(u32, u32)> {
    match g {
        Some(c) => Some((c.0, c.1)),
        None => None,
    }
}

spec fn cells_held(objs: Seq<Obj>, dtos: Seq<(u32, Ref)>, cells: Seq<CellEntry>) -> bool {
    &&& dtos.len() == cells.len()
    &&& forall|i: int|
        0 <= i < dtos.len() ==> (#[trigger] dtos[i]).0 == cells[i].generation && represents(
            objs,
            dtos[i].1,
            cells[i].value,
        )
}

spec fn refs_held(objs: Seq<Obj>, rs: Seq<Ref>, vs: Seq<Value>) -> bool {
    &&& rs.len() == vs.len()
    &&& forall|i: int| 0 <= i < rs.len() ==> represents(objs, #[trigger] rs[i], vs[i])
}

spec fn frame_held(objs: Seq<Obj>, d: FrameDto, f: Frame) -> bool {
    &&& d.proto == f.proto
    &&& d.pc == f.pc
    &&& d.base == f.base
    &&& d.dst == f.dst
    &&& d.ret_len == f.ret_len
    &&& represents(objs, Ref::Obj(d.closure), Value::Fn(f.closure))
}

spec fn frames_held(objs: Seq<Obj>, dtos: Seq<FrameDto>, frames: Seq<Frame>) -> bool {
    &&& dtos.len() == frames.len()
    &&& forall|i: int| 0 <= i < dtos.len() ==> frame_held(objs, #[trigger] dtos[i], frames[i])
}

spec fn handlers_held(dtos: Seq<HandlerDto>, hs: Seq<Handler>) -> bool {
    &&& dtos.len() == hs.len()
    &&& forall|i: int|
        0 <= i < dtos.len() ==> (#[trigger] dtos[i]).frame == hs[i].frame && dtos[i].target == hs[i].target
            && dtos[i].err == hs[i].err
}

spec fn pending_held(objs: Seq<Obj>, d: PendingDto, p: Pending) -> bool {
    &&& d.depth == p.depth
    &&& d.origin == p.unwind.origin
    &&& represents(objs, d.value, p.unwind.value)
    &&& refs_held(objs, d.suppressed@, p.unwind.suppressed@)
}

spec fn pendings_held(objs: Seq<Obj>, dtos: Seq<PendingDto>, ps: Seq<Pending>) -> bool {
    &&& dtos.len() == ps.len()
    &&& forall|i: int| 0 <= i < dtos.len() ==> pending_held(objs, #[trigger] dtos[i], ps[i])
}

proof fn lemma_refs_held_extend(objs: Seq<Obj>, more: Seq<Obj>, rs: Seq<Ref>, vs: Seq<Value>)
    requires
        extends(objs, more),
        refs_held(objs, rs, vs),
    ensures
        refs_held(more, rs, vs),
{
    assert forall|i: int| 0 <= i < rs.len() implies represents(more, #[trigger] rs[i], vs[i]) by {
        lemma_represents_extends(objs, more, rs[i], vs[i]);
    }
}

proof fn lemma_cells_held_extend(objs: Seq<Obj>, more: Seq<Obj>, dtos: Seq<(u32, Ref)>, cells: Seq<CellEntry>)
    requires
        extends(objs, more),
        cells_held(objs, dtos, cells),
    ensures
        cells_held(more, dtos, cells),
{
    assert forall|i: int| 0 <= i < dtos.len() implies (#[trigger] dtos[i]).0 == cells[i].generation
        && represents(more, dtos[i].1, cells[i].value) by {
        lemma_represents_extends(objs, more, dtos[i].1, cells[i].value);
    }
}

proof fn lemma_frames_held_extend(objs: Seq<Obj>, more: Seq<Obj>, dtos: Seq<FrameDto>, frames: Seq<Frame>)
    requires
        extends(objs, more),
        frames_held(objs, dtos, frames),
    ensures
        frames_held(more, dtos, frames),
{
    assert forall|i: int| 0 <= i < dtos.len() implies frame_held(more, #[trigger] dtos[i], frames[i]) by {
        lemma_represents_extends(objs, more, Ref::Obj(dtos[i].closure), Value::Fn(frames[i].closure));
    }
}

proof fn lemma_pendings_held_extend(objs: Seq<Obj>, more: Seq<Obj>, dtos: Seq<PendingDto>, ps: Seq<Pending>)
    requires
        extends(objs, more),
        pendings_held(objs, dtos, ps),
    ensures
        pendings_held(more, dtos, ps),
{
    assert forall|i: int| 0 <= i < dtos.len() implies pending_held(more, #[trigger] dtos[i], ps[i]) by {
        lemma_represents_extends(objs, more, dtos[i].value, ps[i].unwind.value);
        lemma_refs_held_extend(objs, more, dtos[i].suppressed@, ps[i].unwind.suppressed@);
    }
}

impl Image {
    /// The table decodes in one forward pass, every reference names an
    /// object, a frame's closure names a function, and the free list names
    /// closed slots, each once.
    #[verifier::type_invariant]
    spec fn wf(&self) -> bool {
        let n = self.objects@.len() as int;
        &&& topological(self.objects@)
        &&& forall|i: int| 0 <= i < self.cells@.len() ==> ref_below((#[trigger] self.cells@[i]).1, n)
        &&& forall|i: int| 0 <= i < self.slots@.len() ==> ref_below(#[trigger] self.slots@[i], n)
        &&& forall|i: int|
            0 <= i < self.frames@.len() ==> (#[trigger] self.frames@[i]).closure < n && (
            self.objects@[self.frames@[i].closure as int] is Fn
                || self.objects@[self.frames@[i].closure as int] is Native)
        &&& forall|i: int|
            0 <= i < self.pending@.len() ==> ref_below((#[trigger] self.pending@[i]).value, n) && forall|j: int|
                0 <= j < self.pending@[i].suppressed@.len() ==> ref_below(
                    #[trigger] self.pending@[i].suppressed@[j],
                    n,
                )
        &&& free_ok(self.handle_generations@, self.handle_hosts@, self.free_handles@)
    }

    /// The fingerprint of the code the image was taken from.
    pub closed spec fn fingerprint_of(&self) -> u64 {
        self.fingerprint
    }

    /// How many heap objects the encoding holds.
    pub closed spec fn objects_spec(&self) -> nat {
        self.objects@.len()
    }

    /// The image holds exactly this machine state and this execution: the
    /// interned names, the globals, the cells, the handle table, the gensym
    /// and closure counters, the buffered output, and every frame, slot,
    /// handler and parked unwind, each value standing behind its reference.
    pub closed spec fn holds<P: Platform>(&self, vm: Vm<P>, ex: Execution) -> bool {
        let objs = self.objects@;
        &&& self.names@.map_values(|s: String| s@) == vm.interner@
        &&& self.globals@ == vm.globals@.map_values(|g: Option<CellId>| global_pair(g))
        &&& cells_held(objs, self.cells@, vm.cells@)
        &&& self.handle_generations@ == vm.handles.gens_view()
        &&& self.handle_hosts@ == vm.handles.hosts_view()
        &&& self.free_handles@ == vm.handles.free_view()
        &&& self.gensym == vm.gensym
        &&& self.fn_ids == vm.fn_ids
        &&& self.out@ == vm.out@
        &&& frames_held(objs, self.frames@, ex.frames@)
        &&& refs_held(objs, self.slots@, ex.slots@)
        &&& handlers_held(self.handlers@, ex.handlers@)
        &&& pendings_held(objs, self.pending@, ex.pending@)
        &&& self.fuel == ex.fuel
    }

    /// How many distinct heap objects the encoding holds. Sharing cannot be
    /// seen from inside the language, so this number is how a test tells a
    /// sharing encoder from a copying one.
    pub fn object_count(&self) -> (r: usize)
        ensures
            r == self.objects_spec(),
    {
        self.objects.len()
    }
}

// --- the code an image belongs to -----------------------------------------------

/// The text a chunk's derived `Debug` renders.
pub uninterp spec fn chunk_debug_text(chunk: Chunk) -> Seq<char>;

/// What std's `DefaultHasher` makes of a text.
pub uninterp spec fn default_hash(text: Seq<char>) -> u64;

/// `format!("{:?}")` of a chunk: its derived `Debug` rendering, which shows
/// every prototype, instruction, position and constant.
#[verifier::external_body]
fn debug_text(chunk: &Chunk) -> (r: String)
    ensures
        r@ == chunk_debug_text(*chunk),
{
    format!("{chunk:?}")
}

/// `BuildHasher::hash_one` over std's `DefaultHasher`, whose keys are fixed:
/// one text hashes to one number in every run of a build.
#[verifier::external_body]
fn hash_text(text: &String) -> (r: u64)
    ensures
        r == default_hash(text@),
{
    std::hash::BuildHasher::hash_one(
        &std::hash::BuildHasherDefault::<std::collections::hash_map::DefaultHasher>::default(),
        text,
    )
}

/// The fingerprint of a chunk: the default hash of its `Debug` rendering.
pub open spec fn fingerprint_spec(chunk: Chunk) -> u64 {
    default_hash(chunk_debug_text(chunk))
}

/// Same build, same code. The rendering covers the whole tree, constants
/// included, and a snapshot is not a hot path.
pub fn fingerprint(chunk: &Chunk) -> (r: u64)
    ensures
        r == fingerprint_spec(*chunk),
{
    let text = debug_text(chunk);
    hash_text(&text)
}

// --- capture ------------------------------------------------------------------

/// `a` and `b` are one heap object. Immediates have no identity.
fn identical(a: &Value, b: &Value) -> (r: bool)
    ensures
        r ==> *a == *b,
        r ==> (*a is Str || *a is Bytes || *a is List || *a is Vec || *a is Dict || *a is Fn),
{
    match (a, b) {
        (Value::Str(x), Value::Str(y)) => same_object(x, y),
        (Value::Bytes(x), Value::Bytes(y)) => same_object(x, y),
        (Value::List(x), Value::List(y)) => same_object(x, y),
        (Value::Vec(x), Value::Vec(y)) => same_object(x, y),
        (Value::Dict(x), Value::Dict(y)) => same_object(x, y),
        (Value::Fn(x), Value::Fn(y)) => same_object(x, y),
        _ => false,
    }
}

/// The objects so far, and each heap value already encoded with its index,
/// so a value reached twice is encoded once. Children are encoded before
/// their parent is added, so the table comes out topologically ordered.
struct Encoder {
    objects: Vec<Obj>,
    seen: Vec<(Value, usize)>,
}

impl Encoder {
    spec fn wf(&self) -> bool {
        &&& topological(self.objects@)
        &&& forall|k: int|
            0 <= k < self.seen@.len() ==> represents(
                self.objects@,
                Ref::Obj((#[trigger] self.seen@[k]).1),
                self.seen@[k].0,
            )
    }

    /// The index a heap value was already given, found by identity.
    fn lookup(&self, v: &Value) -> (r: Option<usize>)
        requires
            self.wf(),
        ensures
            r matches Some(id) ==> represents(self.objects@, Ref::Obj(id), *v),
            r matches Some(id) ==> exists|k: int|
                0 <= k < self.seen@.len() && #[trigger] self.seen@[k] == (*v, id as usize),
    {
        let mut k: usize = 0;
        while k < self.seen.len()
            invariant
                k <= self.seen@.len(),
                self.wf(),
            decreases self.seen@.len() - k,
        {
            if identical(&self.seen[k].0, v) {
                proof {
                    assert(represents(self.objects@, Ref::Obj(self.seen@[k as int].1), self.seen@[k as int].0));
                    assert(self.seen@[k as int] == (*v, self.seen@[k as int].1));
                }
                return Some(self.seen[k].1);
            }
            k = k + 1;
        }
        None
    }

    /// Add `o` as the object for `v`.
    fn obj(&mut self, o: Obj, v: &Value) -> (r: Ref)
        requires
            old(self).wf(),
            obj_below(o, old(self).objects@.len() as int),
            stands_for(old(self).objects@, o, *v),
        ensures
            final(self).wf(),
            extends(old(self).objects@, final(self).objects@),
            represents(final(self).objects@, r, *v),
    {
        let ghost before = self.objects@;
        let id = self.objects.len();
        self.objects.push(o);
        proof {
            assert(extends(before, self.objects@));
            lemma_stands_extends(before, self.objects@, o, *v);
            assert(obj_at(self.objects@, Ref::Obj(id)) == Some(o));
            assert forall|k: int| 0 <= k < self.seen@.len() implies represents(
                self.objects@,
                Ref::Obj((#[trigger] self.seen@[k]).1),
                self.seen@[k].0,
            ) by {
                lemma_represents_extends(before, self.objects@, Ref::Obj(self.seen@[k].1), self.seen@[k].0);
            }
            assert forall|i: int| 0 <= i < self.objects@.len() implies obj_below(#[trigger] self.objects@[i], i) by {
                if i < before.len() {
                    assert(self.objects@[i] == before[i]);
                }
            }
        }
        self.seen.push((v.clone(), id));
        proof {
            assert forall|k: int| 0 <= k < self.seen@.len() implies represents(
                self.objects@,
                Ref::Obj((#[trigger] self.seen@[k]).1),
                self.seen@[k].0,
            ) by {}
        }
        Ref::Obj(id)
    }

    fn value(&mut self, v: &Value) -> (r: Ref)
        requires
            old(self).wf(),
        ensures
            final(self).wf(),
            extends(old(self).objects@, final(self).objects@),
            represents(final(self).objects@, r, *v),
        decreases *v,
    {
        match v {
            Value::Nil => Ref::Nil,
            Value::Bool(b) => Ref::Bool(*b),
            Value::Int(i) => Ref::Int(*i),
            Value::Float(f) => Ref::Float(*f),
            Value::Sym(s) => Ref::Sym(s.0),
            Value::Keyword(k) => Ref::Keyword(k.0),
            Value::Cell(c) => Ref::Cell(c.0, c.1),
            Value::Handle(h) => Ref::Handle(h.0, h.1),
            Value::Buffer(b) => Ref::Buffer(b.0, b.1),
            _ => {
                if let Some(id) = self.lookup(v) {
                    return Ref::Obj(id);
                }
                match v {
                    Value::Str(s) => {
                        let t = copy_str(s.0.as_str());
                        self.obj(Obj::Str(t), v)
                    },
                    Value::Bytes(b) => {
                        let t = copy_bytes(&b.0);
                        self.obj(Obj::Bytes(t), v)
                    },
                    Value::List(l) => {
                        let rs = self.each(l);
                        proof {
                            lemma_refs_below(self.objects@, rs@, l@);
                        }
                        self.obj(Obj::List(rs), v)
                    },
                    Value::Vec(l) => {
                        let rs = self.each(l);
                        proof {
                            lemma_refs_below(self.objects@, rs@, l@);
                        }
                        self.obj(Obj::Vec(rs), v)
                    },
                    Value::Dict(m) => {
                        let ps = self.each_pair(m);
                        proof {
                            assert forall|j: int| 0 <= j < ps@.len() implies ref_below((#[trigger] ps@[j]).0,
                                self.objects@.len() as int) && ref_below(ps@[j].1, self.objects@.len() as int) by {
                                lemma_represents_below(self.objects@, ps@[j].0, m@[j].0);
                                lemma_represents_below(self.objects@, ps@[j].1, m@[j].1);
                            }
                        }
                        self.obj(Obj::Dict(ps), v)
                    },
                    Value::Fn(c) => match &**c {
                        Closure::Fn { proto, captures, id } => {
                            let rs = self.each(captures);
                            proof {
                                lemma_refs_below(self.objects@, rs@, captures@);
                            }
                            self.obj(Obj::Fn { proto: *proto, captures: rs, id: *id }, v)
                        },
                        Closure::Native(n) => self.obj(Obj::Native(n.0), v),
                    },
                    _ => Ref::Nil,
                }
            },
        }
    }

    fn each(&mut self, vs: &Vec<Value>) -> (r: Vec<Ref>)
        requires
            old(self).wf(),
        ensures
            final(self).wf(),
            extends(old(self).objects@, final(self).objects@),
            r@.len() == vs@.len(),
            forall|j: int| 0 <= j < vs@.len() ==> represents(final(self).objects@, r@[j], #[trigger] vs@[j]),
        decreases vs@,
    {
        let ghost start = self.objects@;
        let mut out: Vec<Ref> = Vec::new();
        let mut i: usize = 0;
        while i < vs.len()
            invariant
                i <= vs@.len(),
                self.wf(),
                extends(start, self.objects@),
                out@.len() == i,
                forall|j: int| 0 <= j < i ==> represents(self.objects@, out@[j], #[trigger] vs@[j]),
            decreases vs@.len() - i,
        {
            let ghost before = self.objects@;
            let r = self.value(&vs[i]);
            proof {
                assert forall|j: int| 0 <= j < i implies represents(self.objects@, out@[j], #[trigger] vs@[j]) by {
                    lemma_represents_extends(before, self.objects@, out@[j], vs@[j]);
                }
            }
            out.push(r);
            i = i + 1;
        }
        out
    }

    fn each_pair(&mut self, ps: &Vec<(Value, Value)>) -> (r: Vec<(Ref, Ref)>)
        requires
            old(self).wf(),
        ensures
            final(self).wf(),
            extends(old(self).objects@, final(self).objects@),
            r@.len() == ps@.len(),
            forall|j: int|
                0 <= j < ps@.len() ==> represents(final(self).objects@, r@[j].0, (#[trigger] ps@[j]).0)
                    && represents(final(self).objects@, r@[j].1, ps@[j].1),
        decreases ps@,
    {
        let ghost start = self.objects@;
        let mut out: Vec<(Ref, Ref)> = Vec::new();
        let mut i: usize = 0;
        while i < ps.len()
            invariant
                i <= ps@.len(),
                self.wf(),
                extends(start, self.objects@),
                out@.len() == i,
                forall|j: int|
                    0 <= j < i ==> represents(self.objects@, out@[j].0, (#[trigger] ps@[j]).0) && represents(
                        self.objects@,
                        out@[j].1,
                        ps@[j].1,
                    ),
            decreases ps@.len() - i,
        {
            let ghost before = self.objects@;
            let k = self.value(&ps[i].0);
            let ghost mid = self.objects@;
            let x = self.value(&ps[i].1);
            proof {
                lemma_represents_extends(mid, self.objects@, k, ps@[i as int].0);
                assert forall|j: int| 0 <= j < i implies represents(self.objects@, out@[j].0, (#[trigger] ps@[j]).0)
                    && represents(self.objects@, out@[j].1, ps@[j].1) by {
                    lemma_represents_extends(before, self.objects@, out@[j].0, ps@[j].0);
                    lemma_represents_extends(before, self.objects@, out@[j].1, ps@[j].1);
                }
            }
            out.push((k, x));
            i = i + 1;
        }
        out
    }

    fn cells(&mut self, cells: &Vec<CellEntry>) -> (r: Vec<(u32, Ref)>)
        requires
            old(self).wf(),
        ensures
            final(self).wf(),
            extends(old(self).objects@, final(self).objects@),
            cells_held(final(self).objects@, r@, cells@),
    {
        let ghost start = self.objects@;
        let mut out: Vec<(u32, Ref)> = Vec::new();
        let mut i: usize = 0;
        while i < cells.len()
            invariant
                i <= cells@.len(),
                self.wf(),
                extends(start, self.objects@),
                cells_held(self.objects@, out@, cells@.take(i as int)),
            decreases cells@.len() - i,
        {
            let ghost before = self.objects@;
            let r = self.value(&cells[i].value);
            proof {
                lemma_cells_held_extend(before, self.objects@, out@, cells@.take(i as int));
            }
            out.push((cells[i].generation, r));
            proof {
                assert(cells@.take(i + 1) == cells@.take(i as int).push(cells@[i as int]));
                assert(out@[i as int] == (cells@[i as int].generation, r));
            }
            i = i + 1;
        }
        proof {
            assert(cells@.take(i as int) == cells@);
        }
        out
    }

    fn frames(&mut self, frames: &Vec<Frame>) -> (r: Vec<FrameDto>)
        requires
            old(self).wf(),
        ensures
            final(self).wf(),
            extends(old(self).objects@, final(self).objects@),
            frames_held(final(self).objects@, r@, frames@),
    {
        let ghost start = self.objects@;
        let mut out: Vec<FrameDto> = Vec::new();
        let mut i: usize = 0;
        while i < frames.len()
            invariant
                i <= frames@.len(),
                self.wf(),
                extends(start, self.objects@),
                frames_held(self.objects@, out@, frames@.take(i as int)),
            decreases frames@.len() - i,
        {
            let ghost before = self.objects@;
            let f = &frames[i];
            let v = Value::Fn(f.closure.clone());
            let r = self.value(&v);
            proof {
                lemma_frames_held_extend(before, self.objects@, out@, frames@.take(i as int));
            }
            let closure = match r {
                Ref::Obj(id) => id,
                _ => {
                    proof {
                        assert(false);
                    }
                    0
                },
            };
            out.push(FrameDto { proto: f.proto, pc: f.pc, base: f.base, dst: f.dst, ret_len: f.ret_len, closure });
            proof {
                assert(frames@.take(i + 1) == frames@.take(i as int).push(frames@[i as int]));
                assert(frame_held(self.objects@, out@[i as int], frames@[i as int]));
            }
            i = i + 1;
        }
        proof {
            assert(frames@.take(i as int) == frames@);
        }
        out
    }

    fn pendings(&mut self, ps: &Vec<Pending>) -> (r: Vec<PendingDto>)
        requires
            old(self).wf(),
        ensures
            final(self).wf(),
            extends(old(self).objects@, final(self).objects@),
            pendings_held(final(self).objects@, r@, ps@),
    {
        let ghost start = self.objects@;
        let mut out: Vec<PendingDto> = Vec::new();
        let mut i: usize = 0;
        while i < ps.len()
            invariant
                i <= ps@.len(),
                self.wf(),
                extends(start, self.objects@),
                pendings_held(self.objects@, out@, ps@.take(i as int)),
            decreases ps@.len() - i,
        {
            let ghost before = self.objects@;
            let p = &ps[i];
            let value = self.value(&p.unwind.value);
            let ghost mid = self.objects@;
            let suppressed = self.each(&p.unwind.suppressed);
            proof {
                lemma_represents_extends(mid, self.objects@, value, p.unwind.value);
                lemma_pendings_held_extend(before, self.objects@, out@, ps@.take(i as int));
            }
            out.push(PendingDto { depth: p.depth, value, origin: p.unwind.origin, suppressed });
            proof {
                assert(ps@.take(i + 1) == ps@.take(i as int).push(ps@[i as int]));
                assert(pending_held(self.objects@, out@[i as int], ps@[i as int]));
            }
            i = i + 1;
        }
        proof {
            assert(ps@.take(i as int) == ps@);
        }
        out
    }
}

fn copy_names(names: &Vec<String>) -> (r: Vec<String>)
    ensures
        r@.map_values(|s: String| s@) == names@.map_values(|s: String| s@),
{
    let mut out: Vec<String> = Vec::new();
    let mut i: usize = 0;
    while i < names.len()
        invariant
            i <= names@.len(),
            out@.len() == i,
            forall|k: int| 0 <= k < i ==> (#[trigger] out@[k])@ == names@[k]@,
        decreases names@.len() - i,
    {
        out.push(copy_str(names[i].as_str()));
        i = i + 1;
    }
    proof {
        assert(out@.map_values(|s: String| s@) == names@.map_values(|s: String| s@));
    }
    out
}

fn global_pairs(gs: &Vec<Option<CellId>>) -> (r: Vec<Option<(u32, u32)>>)
    ensures
        r@ == gs@.map_values(|g: Option<CellId>| global_pair(g)),
{
    let mut out: Vec<Option<(u32, u32)>> = Vec::new();
    let mut i: usize = 0;
    while i < gs.len()
        invariant
            i <= gs@.len(),
            out@.len() == i,
            forall|k: int| 0 <= k < i ==> #[trigger] out@[k] == global_pair(gs@[k]),
        decreases gs@.len() - i,
    {
        let g = match gs[i] {
            Some(c) => Some((c.0, c.1)),
            None => None,
        };
        out.push(g);
        i = i + 1;
    }
    proof {
        assert(out@ == gs@.map_values(|g: Option<CellId>| global_pair(g)));
    }
    out
}

fn handler_dtos(hs: &Vec<Handler>) -> (r: Vec<HandlerDto>)
    ensures
        handlers_held(r@, hs@),
{
    let mut out: Vec<HandlerDto> = Vec::new();
    let mut i: usize = 0;
    while i < hs.len()
        invariant
            i <= hs@.len(),
            out@.len() == i,
            forall|k: int|
                0 <= k < i ==> (#[trigger] out@[k]).frame == hs@[k].frame && out@[k].target == hs@[k].target
                    && out@[k].err == hs@[k].err,
        decreases hs@.len() - i,
    {
        out.push(HandlerDto { frame: hs[i].frame, target: hs[i].target, err: hs[i].err });
        i = i + 1;
    }
    out
}

/// Take an `Image` of a suspended run.
///
/// Refused while a file or socket is open: a resource is not something an
/// image can hold. The two standard streams do not count, because any VM of
/// this build recreates them at the same ids.
pub fn capture<P: Platform>(vm: &Vm<P>, ex: &Execution, chunk: &Chunk) -> (r: Result<Image, SnapshotError>)
    ensures
        r is Err <==> vm.handles.open_spec() > RECONSTRUCTIBLE,
        r matches Err(e) ==> e == SnapshotError::SnapshotHasLiveHandles(
            (vm.handles.open_spec() - RECONSTRUCTIBLE) as usize,
        ),
        r matches Ok(img) ==> img.holds(*vm, *ex) && img.fingerprint_of() == fingerprint_spec(*chunk),
{
    let live = vm.open_handles();
    if live > RECONSTRUCTIBLE {
        return Err(SnapshotError::SnapshotHasLiveHandles(live - RECONSTRUCTIBLE));
    }
    let hosts = vm.handles.hosts();
    let mut e = Encoder { objects: Vec::new(), seen: Vec::new() };
    let cells = e.cells(&vm.cells);
    let ghost o1 = e.objects@;
    let slots = e.each(&ex.slots);
    let ghost o2 = e.objects@;
    let frames = e.frames(&ex.frames);
    let ghost o3 = e.objects@;
    let pending = e.pendings(&ex.pending);
    let ghost objs = e.objects@;
    proof {
        lemma_cells_held_extend(o1, objs, cells@, vm.cells@);
        assert(refs_held(o2, slots@, ex.slots@));
        lemma_refs_held_extend(o2, objs, slots@, ex.slots@);
        lemma_frames_held_extend(o3, objs, frames@, ex.frames@);
        let n = objs.len() as int;
        assert forall|i: int| 0 <= i < cells@.len() implies ref_below((#[trigger] cells@[i]).1, n) by {
            lemma_represents_below(objs, cells@[i].1, vm.cells@[i].value);
        }
        assert forall|i: int| 0 <= i < slots@.len() implies ref_below(#[trigger] slots@[i], n) by {
            lemma_represents_below(objs, slots@[i], ex.slots@[i]);
        }
        assert forall|i: int| 0 <= i < frames@.len() implies (#[trigger] frames@[i]).closure < n && (
        objs[frames@[i].closure as int] is Fn || objs[frames@[i].closure as int] is Native) by {
            assert(frame_held(objs, frames@[i], ex.frames@[i]));
        }
        assert forall|i: int| 0 <= i < pending@.len() implies ref_below((#[trigger] pending@[i]).value, n)
            && forall|j: int|
            0 <= j < pending@[i].suppressed@.len() ==> ref_below(#[trigger] pending@[i].suppressed@[j], n) by {
            assert(pending_held(objs, pending@[i], ex.pending@[i]));
            lemma_represents_below(objs, pending@[i].value, ex.pending@[i].unwind.value);
            lemma_refs_below(objs, pending@[i].suppressed@, ex.pending@[i].unwind.suppressed@);
        }
    }
    let free = vm.handles.free_list();
    let img = Image {
        fingerprint: fingerprint(chunk),
        names: copy_names(vm.interner.names()),
        objects: e.objects,
        globals: global_pairs(&vm.globals),
        cells,
        handle_generations: vm.handles.generations(),
        handle_hosts: hosts,
        free_handles: free,
        gensym: vm.gensym,
        fn_ids: vm.fn_ids,
        out: copy_str(vm.out.as_str()),
        frames,
        slots,
        handlers: handler_dtos(&ex.handlers),
        pending,
        fuel: ex.fuel,
    };
    Ok(img)
}

// --- restore ----------------------------------------------------------------------

/// The value a reference decodes to, given the objects decoded so far.
pub open spec fn deref_spec(r: Ref, vals: Seq<Value>) -> Value {
    match r {
        Ref::Nil => Value::Nil,
        Ref::Bool(b) => Value::Bool(b),
        Ref::Float(f) => Value::Float(f),
        Ref::Int(i) => Value::Int(i),
        Ref::Sym(s) => Value::Sym(SymId(s)),
        Ref::Keyword(k) => Value::Keyword(KwId(k)),
        Ref::Cell(i, g) => Value::Cell(CellId(i, g)),
        Ref::Handle(i, g) => Value::Handle(HandleId(i, g)),
        Ref::Buffer(i, g) => Value::Buffer(BufferId(i, g)),
        Ref::Obj(id) => vals[id as int],
    }
}

/// Every value decoded so far is what its object stands for.
spec fn decoded(objs: Seq<Obj>, vals: Seq<Value>) -> bool {
    forall|k: int| 0 <= k < vals.len() ==> represents(objs, Ref::Obj(k as usize), #[trigger] vals[k])
}

proof fn lemma_deref(objs: Seq<Obj>, r: Ref, vals: Seq<Value>)
    requires
        decoded(objs, vals),
        ref_below(r, vals.len() as int),
    ensures
        represents(objs, r, deref_spec(r, vals)),
{
    if let Ref::Obj(id) = r {
        assert(represents(objs, Ref::Obj(id as int as usize), vals[id as int]));
    }
}

fn deref(r: &Ref, vals: &Vec<Value>) -> (v: Value)
    requires
        ref_below(*r, vals@.len() as int),
    ensures
        v == deref_spec(*r, vals@),
{
    match r {
        Ref::Nil => Value::Nil,
        Ref::Bool(b) => Value::Bool(*b),
        Ref::Float(f) => Value::Float(*f),
        Ref::Int(i) => Value::Int(*i),
        Ref::Sym(s) => Value::Sym(SymId(*s)),
        Ref::Keyword(k) => Value::Keyword(KwId(*k)),
        Ref::Cell(i, g) => Value::Cell(CellId(*i, *g)),
        Ref::Handle(i, g) => Value::Handle(HandleId(*i, *g)),
        Ref::Buffer(i, g) => Value::Buffer(BufferId(*i, *g)),
        Ref::Obj(id) => vals[*id].clone(),
    }
}

fn deref_all(rs: &Vec<Ref>, vals: &Vec<Value>, Ghost(objs): Ghost<Seq<Obj>>) -> (r: Vec<Value>)
    requires
        decoded(objs, vals@),
        forall|j: int| 0 <= j < rs@.len() ==> ref_below(#[trigger] rs@[j], vals@.len() as int),
    ensures
        refs_held(objs, rs@, r@),
{
    let mut out: Vec<Value> = Vec::new();
    let mut i: usize = 0;
    while i < rs.len()
        invariant
            i <= rs@.len(),
            decoded(objs, vals@),
            forall|j: int| 0 <= j < rs@.len() ==> ref_below(#[trigger] rs@[j], vals@.len() as int),
            out@.len() == i,
            forall|j: int| 0 <= j < i ==> represents(objs, #[trigger] rs@[j], out@[j]),
        decreases rs@.len() - i,
    {
        proof {
            lemma_deref(objs, rs@[i as int], vals@);
        }
        out.push(deref(&rs[i], vals));
        i = i + 1;
    }
    out
}

fn deref_pairs(ps: &Vec<(Ref, Ref)>, vals: &Vec<Value>, Ghost(objs): Ghost<Seq<Obj>>) -> (r: Vec<(Value, Value)>)
    requires
        decoded(objs, vals@),
        forall|j: int|
            0 <= j < ps@.len() ==> ref_below((#[trigger] ps@[j]).0, vals@.len() as int) && ref_below(
                ps@[j].1,
                vals@.len() as int,
            ),
    ensures
        r@.len() == ps@.len(),
        forall|j: int|
            0 <= j < ps@.len() ==> represents(objs, ps@[j].0, (#[trigger] r@[j]).0) && represents(
                objs,
                ps@[j].1,
                r@[j].1,
            ),
{
    let mut out: Vec<(Value, Value)> = Vec::new();
    let mut i: usize = 0;
    while i < ps.len()
        invariant
            i <= ps@.len(),
            decoded(objs, vals@),
            forall|j: int|
                0 <= j < ps@.len() ==> ref_below((#[trigger] ps@[j]).0, vals@.len() as int) && ref_below(
                    ps@[j].1,
                    vals@.len() as int,
                ),
            out@.len() == i,
            forall|j: int|
                0 <= j < i ==> represents(objs, ps@[j].0, (#[trigger] out@[j]).0) && represents(
                    objs,
                    ps@[j].1,
                    out@[j].1,
                ),
        decreases ps@.len() - i,
    {
        proof {
            lemma_deref(objs, ps@[i as int].0, vals@);
            lemma_deref(objs, ps@[i as int].1, vals@);
        }
        let k = deref(&ps[i].0, vals);
        let v = deref(&ps[i].1, vals);
        out.push((k, v));
        i = i + 1;
    }
    out
}

/// Build the value one object stands for, from the values of the objects
/// before it.
fn decode(o: &Obj, vals: &Vec<Value>, Ghost(objs): Ghost<Seq<Obj>>) -> (v: Value)
    requires
        decoded(objs, vals@),
        obj_below(*o, vals@.len() as int),
    ensures
        stands_for(objs, *o, v),
{
    match o {
        Obj::Str(t) => Value::Str(Rc::new(StrObj(copy_str(t.as_str())))),
        Obj::Bytes(b) => Value::Bytes(Rc::new(BytesObj(copy_bytes(b)))),
        Obj::List(rs) => Value::List(Rc::new(deref_all(rs, vals, Ghost(objs)))),
        Obj::Vec(rs) => Value::Vec(Rc::new(deref_all(rs, vals, Ghost(objs)))),
        Obj::Dict(ps) => Value::Dict(Rc::new(deref_pairs(ps, vals, Ghost(objs)))),
        Obj::Fn { proto, captures, id } => {
            let cs = deref_all(captures, vals, Ghost(objs));
            Value::Fn(Rc::new(Closure::Fn { proto: *proto, captures: Rc::new(cs), id: *id }))
        },
        Obj::Native(n) => Value::Fn(Rc::new(Closure::Native(NativeId(*n)))),
    }
}

fn cell_ids(gs: &Vec<Option<(u32, u32)>>) -> (r: Vec<Option<CellId>>)
    ensures
        gs@ == r@.map_values(|g: Option<CellId>| global_pair(g)),
{
    let mut out: Vec<Option<CellId>> = Vec::new();
    let mut i: usize = 0;
    while i < gs.len()
        invariant
            i <= gs@.len(),
            out@.len() == i,
            forall|k: int| 0 <= k < i ==> global_pair(#[trigger] out@[k]) == gs@[k],
        decreases gs@.len() - i,
    {
        let g = match gs[i] {
            Some((a, b)) => Some(CellId(a, b)),
            None => None,
        };
        out.push(g);
        i = i + 1;
    }
    proof {
        assert(gs@ == out@.map_values(|g: Option<CellId>| global_pair(g)));
    }
    out
}

fn cell_entries(dtos: &Vec<(u32, Ref)>, vals: &Vec<Value>, Ghost(objs): Ghost<Seq<Obj>>) -> (r: Vec<CellEntry>)
    requires
        decoded(objs, vals@),
        forall|i: int| 0 <= i < dtos@.len() ==> ref_below((#[trigger] dtos@[i]).1, vals@.len() as int),
    ensures
        cells_held(objs, dtos@, r@),
{
    let mut out: Vec<CellEntry> = Vec::new();
    let mut i: usize = 0;
    while i < dtos.len()
        invariant
            i <= dtos@.len(),
            decoded(objs, vals@),
            forall|i: int| 0 <= i < dtos@.len() ==> ref_below((#[trigger] dtos@[i]).1, vals@.len() as int),
            out@.len() == i,
            forall|k: int|
                0 <= k < i ==> (#[trigger] dtos@[k]).0 == out@[k].generation && represents(
                    objs,
                    dtos@[k].1,
                    out@[k].value,
                ),
        decreases dtos@.len() - i,
    {
        proof {
            lemma_deref(objs, dtos@[i as int].1, vals@);
        }
        let value = deref(&dtos[i].1, vals);
        out.push(CellEntry { generation: dtos[i].0, value });
        i = i + 1;
    }
    out
}

fn frames_from(dtos: &Vec<FrameDto>, vals: &Vec<Value>, Ghost(objs): Ghost<Seq<Obj>>) -> (r: Vec<Frame>)
    requires
        decoded(objs, vals@),
        vals@.len() == objs.len(),
        forall|i: int|
            0 <= i < dtos@.len() ==> (#[trigger] dtos@[i]).closure < objs.len() && (
            objs[dtos@[i].closure as int] is Fn || objs[dtos@[i].closure as int] is Native),
    ensures
        frames_held(objs, dtos@, r@),
{
    let mut out: Vec<Frame> = Vec::new();
    let mut i: usize = 0;
    while i < dtos.len()
        invariant
            i <= dtos@.len(),
            decoded(objs, vals@),
            vals@.len() == objs.len(),
            forall|i: int|
                0 <= i < dtos@.len() ==> (#[trigger] dtos@[i]).closure < objs.len() && (
                objs[dtos@[i].closure as int] is Fn || objs[dtos@[i].closure as int] is Native),
            out@.len() == i,
            forall|k: int| 0 <= k < i ==> frame_held(objs, #[trigger] dtos@[k], out@[k]),
        decreases dtos@.len() - i,
    {
        let d = &dtos[i];
        proof {
            assert(represents(objs, Ref::Obj(d.closure as int as usize), vals@[d.closure as int]));
        }
        let closure = match &vals[d.closure] {
            Value::Fn(c) => c.clone(),
            _ => {
                proof {
                    assert(false);
                }
                Rc::new(Closure::Native(NativeId(0)))
            },
        };
        out.push(Frame { proto: d.proto, pc: d.pc, base: d.base, dst: d.dst, ret_len: d.ret_len, closure });
        i = i + 1;
    }
    out
}

fn handlers_from(dtos: &Vec<HandlerDto>) -> (r: Vec<Handler>)
    ensures
        handlers_held(dtos@, r@),
{
    let mut out: Vec<Handler> = Vec::new();
    let mut i: usize = 0;
    while i < dtos.len()
        invariant
            i <= dtos@.len(),
            out@.len() == i,
            forall|k: int|
                0 <= k < i ==> (#[trigger] dtos@[k]).frame == out@[k].frame && dtos@[k].target == out@[k].target
                    && dtos@[k].err == out@[k].err,
        decreases dtos@.len() - i,
    {
        out.push(Handler { frame: dtos[i].frame, target: dtos[i].target, err: dtos[i].err });
        i = i + 1;
    }
    out
}

fn pendings_from(dtos: &Vec<PendingDto>, vals: &Vec<Value>, Ghost(objs): Ghost<Seq<Obj>>) -> (r: Vec<Pending>)
    requires
        decoded(objs, vals@),
        forall|i: int|
            0 <= i < dtos@.len() ==> ref_below((#[trigger] dtos@[i]).value, vals@.len() as int) && forall|j: int|
                0 <= j < dtos@[i].suppressed@.len() ==> ref_below(
                    #[trigger] dtos@[i].suppressed@[j],
                    vals@.len() as int,
                ),
    ensures
        pendings_held(objs, dtos@, r@),
{
    let mut out: Vec<Pending> = Vec::new();
    let mut i: usize = 0;
    while i < dtos.len()
        invariant
            i <= dtos@.len(),
            decoded(objs, vals@),
            forall|i: int|
                0 <= i < dtos@.len() ==> ref_below((#[trigger] dtos@[i]).value, vals@.len() as int) && forall|j: int|
                    0 <= j < dtos@[i].suppressed@.len() ==> ref_below(
                        #[trigger] dtos@[i].suppressed@[j],
                        vals@.len() as int,
                    ),
            out@.len() == i,
            forall|k: int| 0 <= k < i ==> pending_held(objs, #[trigger] dtos@[k], out@[k]),
        decreases dtos@.len() - i,
    {
        let d = &dtos[i];
        proof {
            lemma_deref(objs, d.value, vals@);
        }
        let value = deref(&d.value, vals);
        let suppressed = deref_all(&d.suppressed, vals, Ghost(objs));
        out.push(Pending { depth: d.depth, unwind: Unwind { value, origin: d.origin, suppressed } });
        i = i + 1;
    }
    out
}

/// Rebuild a `Vm` and its suspended `Execution` from an `Image`.
///
/// The chunk comes from the caller, not the image: whoever resumes already
/// has the code, and the fingerprint is what makes that a check rather than
/// an assumption. The VM starts fresh on `platform`, so the natives and the
/// keywords faults are built from are back in place before the image is
/// written over them.
pub fn restore<P: Platform>(img: &Image, chunk: &Chunk, platform: P) -> (r: Result<(Vm<P>, Execution), SnapshotError>)
    ensures
        r is Err <==> img.fingerprint_of() != fingerprint_spec(*chunk),
        r matches Err(e) ==> e == SnapshotError::ChunkMismatch,
        r matches Ok((vm, ex)) ==> img.holds(vm, ex) && vm.platform == platform,
{
    if img.fingerprint != fingerprint(chunk) {
        return Err(SnapshotError::ChunkMismatch);
    }
    proof {
        use_type_invariant(img);
    }
    let ghost objs = img.objects@;
    // One forward pass: an object's children were encoded first, so every
    // index it names is already built.
    let mut vals: Vec<Value> = Vec::new();
    let mut i: usize = 0;
    while i < img.objects.len()
        invariant
            i <= objs.len(),
            objs == img.objects@,
            topological(objs),
            vals@.len() == i,
            decoded(objs, vals@),
        decreases objs.len() - i,
    {
        let v = decode(&img.objects[i], &vals, Ghost(objs));
        proof {
            assert(obj_at(objs, Ref::Obj(i)) == Some(objs[i as int]));
        }
        vals.push(v);
        proof {
            assert forall|k: int| 0 <= k < vals@.len() implies represents(
                objs,
                Ref::Obj(k as usize),
                #[trigger] vals@[k],
            ) by {
            }
        }
        i = i + 1;
    }
    let mut vm = Vm::new(platform);
    vm.interner = Interner::restore(copy_names(&img.names));
    vm.globals = cell_ids(&img.globals);
    vm.cells = cell_entries(&img.cells, &vals, Ghost(objs));
    vm.handles = match HandleTable::rebuild(&img.handle_generations, &img.handle_hosts, &img.free_handles) {
        Some(t) => t,
        None => {
            proof {
                assert(false);
            }
            HandleTable::new()
        },
    };
    vm.gensym = img.gensym;
    vm.fn_ids = img.fn_ids;
    vm.out = copy_str(img.out.as_str());
    let mut ex = Execution::new();
    ex.slots = deref_all(&img.slots, &vals, Ghost(objs));
    ex.frames = frames_from(&img.frames, &vals, Ghost(objs));
    ex.handlers = handlers_from(&img.handlers);
    ex.pending = pendings_from(&img.pending, &vals, Ghost(objs));
    ex.fuel = img.fuel;
    proof {
        assert(img.names@.map_values(|s: String| s@) == vm.interner@);
        assert(img.globals@ == vm.globals@.map_values(|g: Option<CellId>| global_pair(g)));
    }
    Ok((vm, ex))
}

// --- the round trip ---------------------------------------------------------------

/// Two machines with their executions agree on everything an image holds,
/// values compared up to where they live.
pub open spec fn same_state<P: Platform, Q: Platform>(a: Vm<P>, ax: Execution, b: Vm<Q>, bx: Execution) -> bool {
    &&& a.interner@ == b.interner@
    &&& a.globals@ == b.globals@
    &&& a.cells@.len() == b.cells@.len()
    &&& forall|i: int|
        0 <= i < a.cells@.len() ==> (#[trigger] a.cells@[i]).generation == b.cells@[i].generation && alike(
            a.cells@[i].value,
            b.cells@[i].value,
        )
    &&& forall|id: HandleId| #[trigger] a.host_spec(id) == b.host_spec(id)
    &&& a.handles.gens_view() == b.handles.gens_view()
    &&& a.handles.free_view() == b.handles.free_view()
    &&& a.gensym == b.gensym
    &&& a.fn_ids == b.fn_ids
    &&& a.out@ == b.out@
    &&& ax.frames@.len() == bx.frames@.len()
    &&& forall|i: int|
        0 <= i < ax.frames@.len() ==> {
            let f = #[trigger] ax.frames@[i];
            let g = bx.frames@[i];
            &&& f.proto == g.proto
            &&& f.pc == g.pc
            &&& f.base == g.base
            &&& f.dst == g.dst
            &&& f.ret_len == g.ret_len
            &&& alike(Value::Fn(f.closure), Value::Fn(g.closure))
        }
    &&& ax.slots@.len() == bx.slots@.len()
    &&& forall|i: int| 0 <= i < ax.slots@.len() ==> alike(#[trigger] ax.slots@[i], bx.slots@[i])
    &&& ax.handlers@ == bx.handlers@
    &&& ax.pending@.len() == bx.pending@.len()
    &&& forall|i: int|
        0 <= i < ax.pending@.len() ==> {
            let p = #[trigger] ax.pending@[i];
            let q = bx.pending@[i];
            &&& p.depth == q.depth
            &&& p.unwind.origin == q.unwind.origin
            &&& alike(p.unwind.value, q.unwind.value)
            &&& p.unwind.suppressed@.len() == q.unwind.suppressed@.len()
            &&& forall|j: int|
                0 <= j < p.unwind.suppressed@.len() ==> alike(
                    #[trigger] p.unwind.suppressed@[j],
                    q.unwind.suppressed@[j],
                )
        }
    &&& ax.fuel == bx.fuel
}

/// An image holds one state: any two machines it holds, with their
/// executions, are alike in everything it records. `capture` states that
/// the image it returns holds the machine it was taken from, and `restore`
/// that the machine it returns is held by the image; so a run captured and
/// restored with the same code comes back as it was.
pub proof fn lemma_image_holds_one_state<P: Platform, Q: Platform>(
    img: Image,
    a: Vm<P>,
    ax: Execution,
    b: Vm<Q>,
    bx: Execution,
)
    requires
        img.holds(a, ax),
        img.holds(b, bx),
    ensures
        same_state(a, ax, b, bx),
{
    let objs = img.objects@;
    assert(a.globals@ =~= b.globals@) by {
        let ma = a.globals@.map_values(|g: Option<CellId>| global_pair(g));
        let mb = b.globals@.map_values(|g: Option<CellId>| global_pair(g));
        assert(ma.len() == a.globals@.len());
        assert(mb.len() == b.globals@.len());
        assert forall|i: int| 0 <= i < a.globals@.len() implies a.globals@[i] == b.globals@[i] by {
            assert(ma[i] == global_pair(a.globals@[i]));
            assert(mb[i] == global_pair(b.globals@[i]));
        }
    }
    assert forall|i: int| 0 <= i < a.cells@.len() implies (#[trigger] a.cells@[i]).generation
        == b.cells@[i].generation && alike(a.cells@[i].value, b.cells@[i].value) by {
        assert(img.cells@[i].0 == a.cells@[i].generation);
        lemma_represents_alike(objs, img.cells@[i].1, a.cells@[i].value, b.cells@[i].value);
    }
    HandleTable::lemma_same_table(&a.handles, &b.handles);
    assert forall|i: int| 0 <= i < ax.frames@.len() implies {
        let f = #[trigger] ax.frames@[i];
        let g = bx.frames@[i];
        &&& f.proto == g.proto
        &&& f.pc == g.pc
        &&& f.base == g.base
        &&& f.dst == g.dst
        &&& f.ret_len == g.ret_len
        &&& alike(Value::Fn(f.closure), Value::Fn(g.closure))
    } by {
        assert(frame_held(objs, img.frames@[i], ax.frames@[i]));
        assert(frame_held(objs, img.frames@[i], bx.frames@[i]));
        lemma_represents_alike(
            objs,
            Ref::Obj(img.frames@[i].closure),
            Value::Fn(ax.frames@[i].closure),
            Value::Fn(bx.frames@[i].closure),
        );
    }
    assert forall|i: int| 0 <= i < ax.slots@.len() implies alike(#[trigger] ax.slots@[i], bx.slots@[i]) by {
        lemma_represents_alike(objs, img.slots@[i], ax.slots@[i], bx.slots@[i]);
    }
    assert(ax.handlers@ == bx.handlers@) by {
        assert forall|i: int| 0 <= i < ax.handlers@.len() implies ax.handlers@[i] == bx.handlers@[i] by {
            assert(img.handlers@[i].frame == ax.handlers@[i].frame);
        }
    }
    assert forall|i: int| 0 <= i < ax.pending@.len() implies {
        let p = #[trigger] ax.pending@[i];
        let q = bx.pending@[i];
        &&& p.depth == q.depth
        &&& p.unwind.origin == q.unwind.origin
        &&& alike(p.unwind.value, q.unwind.value)
        &&& p.unwind.suppressed@.len() == q.unwind.suppressed@.len()
        &&& forall|j: int|
            0 <= j < p.unwind.suppressed@.len() ==> alike(#[trigger] p.unwind.suppressed@[j], q.unwind.suppressed@[j])
    } by {
        let d = img.pending@[i];
        assert(pending_held(objs, d, ax.pending@[i]));
        assert(pending_held(objs, d, bx.pending@[i]));
        lemma_represents_alike(objs, d.value, ax.pending@[i].unwind.value, bx.pending@[i].unwind.value);
        assert forall|j: int| 0 <= j < ax.pending@[i].unwind.suppressed@.len() implies alike(
            #[trigger] ax.pending@[i].unwind.suppressed@[j],
            bx.pending@[i].unwind.suppressed@[j],
        ) by {
            lemma_represents_alike(
                objs,
                d.suppressed@[j],
                ax.pending@[i].unwind.suppressed@[j],
                bx.pending@[i].unwind.suppressed@[j],
            );
        }
    }
}

} // verus!
