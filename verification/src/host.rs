//! The host boundary: the only place this system touches something outside
//! itself.
//!
//! Language code never holds a host object. It holds a generational
//! `HandleId` into the table the VM owns, which is the one representation of
//! a resource that survives a snapshot. There is no host-call opcode: an io
//! primitive is an ordinary global reached through the ordinary `Call`.

use crate::platform::{ErrorClass, IoFailure, OpenMode, Platform};
use crate::printer;
use crate::text::{cat, cat3, copy_str};
use crate::value::{grows, kind_name, BytesObj, HandleId, Value};
use crate::vm::{Fault, Kind, Vm};
use std::rc::Rc;
use vstd::prelude::*;

verus! {

/// A live host resource.
#[derive(Clone, Copy, PartialEq, Eq, Debug, Structural)]
pub enum Host {
    Stdin,
    /// The buffered in-memory host, not a file descriptor: a write here goes
    /// where `println` goes, so emitted effects are part of what a run
    /// produces rather than escaping it.
    Stdout,
    /// A file or socket the platform opened; the number names it to the
    /// platform.
    Resource(u64),
}

/// The closed `:kind` vocabulary for `:type :io-error`.
#[derive(Clone, Copy, PartialEq, Eq, Debug, Structural)]
pub enum IoKind {
    NotFound,
    PermissionDenied,
    Closed,
    InvalidData,
    Interrupted,
    Timeout,
    WouldBlock,
    ConnectionReset,
    /// Do not dispatch on this one; read the message. The set of things an
    /// operating system can refuse is not ours to close.
    Other,
}

pub open spec fn io_kind_index(k: IoKind) -> int {
    match k {
        IoKind::NotFound => 0,
        IoKind::PermissionDenied => 1,
        IoKind::Closed => 2,
        IoKind::InvalidData => 3,
        IoKind::Interrupted => 4,
        IoKind::Timeout => 5,
        IoKind::WouldBlock => 6,
        IoKind::ConnectionReset => 7,
        IoKind::Other => 8,
    }
}

impl IoKind {
    /// Every kind, in the order `index` numbers them.
    pub fn all() -> (r: [IoKind; 9])
        ensures
            forall|i: int| 0 <= i < 9 ==> io_kind_index(#[trigger] r@[i]) == i,
    {
        [
            IoKind::NotFound,
            IoKind::PermissionDenied,
            IoKind::Closed,
            IoKind::InvalidData,
            IoKind::Interrupted,
            IoKind::Timeout,
            IoKind::WouldBlock,
            IoKind::ConnectionReset,
            IoKind::Other,
        ]
    }

    pub fn index(self) -> (r: usize)
        ensures
            r == io_kind_index(self),
            r < 9,
    {
        match self {
            IoKind::NotFound => 0,
            IoKind::PermissionDenied => 1,
            IoKind::Closed => 2,
            IoKind::InvalidData => 3,
            IoKind::Interrupted => 4,
            IoKind::Timeout => 5,
            IoKind::WouldBlock => 6,
            IoKind::ConnectionReset => 7,
            IoKind::Other => 8,
        }
    }

    pub fn name(self) -> (r: &'static str)
        ensures
            r == io_kind_name(self),
    {
        match self {
            IoKind::NotFound => "not-found",
            IoKind::PermissionDenied => "permission-denied",
            IoKind::Closed => "closed",
            IoKind::InvalidData => "invalid-data",
            IoKind::Interrupted => "interrupted",
            IoKind::Timeout => "timeout",
            IoKind::WouldBlock => "would-block",
            IoKind::ConnectionReset => "connection-reset",
            IoKind::Other => "other",
        }
    }
}

pub open spec fn io_kind_name(k: IoKind) -> &'static str {
    match k {
        IoKind::NotFound => "not-found",
        IoKind::PermissionDenied => "permission-denied",
        IoKind::Closed => "closed",
        IoKind::InvalidData => "invalid-data",
        IoKind::Interrupted => "interrupted",
        IoKind::Timeout => "timeout",
        IoKind::WouldBlock => "would-block",
        IoKind::ConnectionReset => "connection-reset",
        IoKind::Other => "other",
    }
}

/// No two I/O fault kinds share a name, so a program can tell every kind
/// apart by its keyword alone.
pub proof fn lemma_io_kind_names_distinct(a: IoKind, b: IoKind)
    requires
        a != b,
    ensures
        io_kind_name(a)@ != io_kind_name(b)@,
{
    reveal_strlit("not-found");
    reveal_strlit("permission-denied");
    reveal_strlit("closed");
    reveal_strlit("invalid-data");
    reveal_strlit("interrupted");
    reveal_strlit("timeout");
    reveal_strlit("would-block");
    reveal_strlit("connection-reset");
    reveal_strlit("other");
    let (x, y) = (io_kind_name(a)@, io_kind_name(b)@);
    assert(x.len() != y.len() || x[0] != y[0]);
}

/// The primitive that failed.
#[derive(Clone, Copy, PartialEq, Eq, Debug, Structural)]
pub enum IoOp {
    Open,
    Close,
    Read,
    Write,
    Connect,
    Listen,
    Accept,
    Encode,
    Decode,
}

pub open spec fn io_op_index(o: IoOp) -> int {
    match o {
        IoOp::Open => 0,
        IoOp::Close => 1,
        IoOp::Read => 2,
        IoOp::Write => 3,
        IoOp::Connect => 4,
        IoOp::Listen => 5,
        IoOp::Accept => 6,
        IoOp::Encode => 7,
        IoOp::Decode => 8,
    }
}

pub open spec fn io_op_name(o: IoOp) -> &'static str {
    match o {
        IoOp::Open => "open",
        IoOp::Close => "close",
        IoOp::Read => "read",
        IoOp::Write => "write",
        IoOp::Connect => "connect",
        IoOp::Listen => "listen",
        IoOp::Accept => "accept",
        IoOp::Encode => "encode",
        IoOp::Decode => "decode",
    }
}

impl IoOp {
    pub fn all() -> (r: [IoOp; 9])
        ensures
            forall|i: int| 0 <= i < 9 ==> io_op_index(#[trigger] r@[i]) == i,
    {
        [
            IoOp::Open,
            IoOp::Close,
            IoOp::Read,
            IoOp::Write,
            IoOp::Connect,
            IoOp::Listen,
            IoOp::Accept,
            IoOp::Encode,
            IoOp::Decode,
        ]
    }

    pub fn index(self) -> (r: usize)
        ensures
            r == io_op_index(self),
            r < 9,
    {
        match self {
            IoOp::Open => 0,
            IoOp::Close => 1,
            IoOp::Read => 2,
            IoOp::Write => 3,
            IoOp::Connect => 4,
            IoOp::Listen => 5,
            IoOp::Accept => 6,
            IoOp::Encode => 7,
            IoOp::Decode => 8,
        }
    }

    pub fn name(self) -> (r: &'static str)
        ensures
            r == io_op_name(self),
    {
        match self {
            IoOp::Open => "open",
            IoOp::Close => "close",
            IoOp::Read => "read",
            IoOp::Write => "write",
            IoOp::Connect => "connect",
            IoOp::Listen => "listen",
            IoOp::Accept => "accept",
            IoOp::Encode => "encode",
            IoOp::Decode => "decode",
        }
    }
}

/// How the library classifies an operating-system failure. The message is
/// ours and the raw code is dropped, so a thrown value never carries
/// platform wording.
pub open spec fn classify_spec(c: ErrorClass) -> (IoKind, &'static str) {
    match c {
        ErrorClass::NotFound => (IoKind::NotFound, "no such file"),
        ErrorClass::PermissionDenied => (IoKind::PermissionDenied, "permission denied"),
        ErrorClass::InvalidData => (IoKind::InvalidData, "not valid data"),
        ErrorClass::Interrupted => (IoKind::Interrupted, "interrupted"),
        ErrorClass::TimedOut => (IoKind::Timeout, "the operation timed out"),
        ErrorClass::WouldBlock => (IoKind::WouldBlock, "the operation would block"),
        ErrorClass::ConnectionReset | ErrorClass::ConnectionAborted | ErrorClass::BrokenPipe => (
            IoKind::ConnectionReset,
            "the connection was reset",
        ),
        ErrorClass::Other => (IoKind::Other, "the host refused the operation"),
    }
}

pub fn classify(c: ErrorClass) -> (r: (IoKind, &'static str))
    ensures
        r == classify_spec(c),
{
    match c {
        ErrorClass::NotFound => (IoKind::NotFound, "no such file"),
        ErrorClass::PermissionDenied => (IoKind::PermissionDenied, "permission denied"),
        ErrorClass::InvalidData => (IoKind::InvalidData, "not valid data"),
        ErrorClass::Interrupted => (IoKind::Interrupted, "interrupted"),
        ErrorClass::TimedOut => (IoKind::Timeout, "the operation timed out"),
        ErrorClass::WouldBlock => (IoKind::WouldBlock, "the operation would block"),
        ErrorClass::ConnectionReset | ErrorClass::ConnectionAborted | ErrorClass::BrokenPipe => (
            IoKind::ConnectionReset,
            "the connection was reset",
        ),
        ErrorClass::Other => (IoKind::Other, "the host refused the operation"),
    }
}

pub fn host_failed(op: IoOp, path: Option<String>, c: ErrorClass) -> (f: Fault)
    ensures
        f matches Fault::Io { op: o, kind, msg, .. } && o == op && kind == classify_spec(c).0
            && msg@ == classify_spec(c).1@,
{
    let (kind, msg) = classify(c);
    Fault::Io { op, path, kind, msg: copy_str(msg) }
}

pub fn io_fault(op: IoOp, kind: IoKind, msg: String) -> (f: Fault)
    ensures
        f matches Fault::Io { op: o, path, kind: k, msg: m } && o == op && path is None && k == kind
            && m@ == msg@,
{
    Fault::Io { op, path: None, kind, msg }
}

/// A closed or stale handle: both are `:closed` to a program.
pub fn not_live(op: IoOp) -> (f: Fault)
    ensures
        f matches Fault::Io { op: o, kind, .. } && o == op && kind == IoKind::Closed,
{
    io_fault(op, IoKind::Closed, copy_str("the handle does not name an open resource"))
}

/// A misuse is a `:vm-error :type`, not an `:io-error`: nothing about the
/// host was involved.
pub fn misuse(msg: String) -> (f: Fault)
    ensures
        f matches Fault::Vm { kind, msg: m } && kind == Kind::Type && m@ == msg@,
{
    Fault::Vm { kind: Kind::Type, msg }
}

/// The failure a platform reported, as a fault.
pub fn io_failure(op: IoOp, e: IoFailure) -> (f: Fault)
    ensures
        e matches IoFailure::Os(c) ==> (f matches Fault::Io { kind, .. } && kind == classify_spec(
            c,
        ).0),
        e is Misuse ==> (f matches Fault::Vm { kind, .. } && kind == Kind::Type),
{
    match e {
        IoFailure::Os(c) => host_failed(op, None, c),
        IoFailure::Misuse(m) => misuse(m),
    }
}

pub fn handle_arg(v: &Value, op: &str) -> (r: Result<HandleId, Fault>)
    ensures
        match *v {
            Value::Handle(h) => r == Ok::<HandleId, Fault>(h),
            _ => r matches Err(Fault::Vm { kind, .. }) && kind == Kind::Type,
        },
{
    match v {
        Value::Handle(h) => Ok(*h),
        other => Err(misuse(cat3("`", op, cat("` needs a handle, not a ", kind_name(other)).as_str()))),
    }
}

/// How many handles a fresh VM already has open: `io/stdin` and
/// `io/stdout`, which a snapshot may carry because any VM re-creates them.
pub const RECONSTRUCTIBLE: usize = 2;

/// The two standard streams as values in the global table, one handle each,
/// and the io primitives.
pub fn install<P: Platform>(vm: &mut Vm<P>)
    ensures
        final(vm).platform == old(vm).platform,
        old(vm).handles.free_view().len() == 0 && old(vm).handles.gens_view().len() == 0
            && old(vm).handles.hosts_view().len() == 0 ==> {
            &&& final(vm).handles.gens_view() == seq![0u32, 0u32]
            &&& final(vm).handles.hosts_view() == seq![Some(Host::Stdin), Some(Host::Stdout)]
            &&& final(vm).handles.free_view().len() == 0
        },
        grows(old(vm).interner@, final(vm).interner@),
        final(vm).natives@.len() == old(vm).natives@.len() + 6,
        forall|i: int| 0 <= i < old(vm).natives@.len() ==> #[trigger] final(vm).natives@[i] == old(vm).natives@[i],
{
    let stdin = vm.open_handle(Host::Stdin);
    let stdout = vm.open_handle(Host::Stdout);
    vm.set_named_global("io/stdin", Value::Handle(stdin));
    vm.set_named_global("io/stdout", Value::Handle(stdout));
    vm.native("io/open", 2, false, crate::vm::Prim::IoOpen);
    vm.native("io/close", 1, false, crate::vm::Prim::IoClose);
    vm.native("io/open?", 1, false, crate::vm::Prim::IoIsOpen);
    vm.native("io/read", 2, false, crate::vm::Prim::IoRead);
    vm.native("io/read-all", 1, false, crate::vm::Prim::IoReadAll);
    vm.native("io/write", 2, false, crate::vm::Prim::IoWrite);
}

pub fn string_arg<'a>(v: &'a Value, op: &str) -> (r: Result<&'a str, Fault>)
    ensures
        match *v {
            Value::Str(s) => r matches Ok(t) && t@ == s.0@,
            _ => r matches Err(Fault::Vm { kind, .. }) && kind == Kind::Type,
        },
{
    match v {
        Value::Str(s) => Ok(s.0.as_str()),
        other => Err(misuse(cat3("`", op, cat("` needs a string, not a ", kind_name(other)).as_str()))),
    }
}

/// The mode a keyword's name asks `io/open` for.
pub open spec fn open_mode(name: Seq<char>) -> Option<OpenMode> {
    if name == "read"@ {
        Some(OpenMode::Read)
    } else if name == "write"@ {
        Some(OpenMode::Write)
    } else if name == "append"@ {
        Some(OpenMode::Append)
    } else {
        None
    }
}

/// A misuse: a `:vm-error` of kind `:type`.
pub open spec fn type_fault(r: Result<Value, Fault>) -> bool {
    r matches Err(Fault::Vm { kind, .. }) && kind == Kind::Type
}

/// What `io/open` gives back: a refusal of a path that is not a string or
/// a mode that is not one of its keywords, and on success a handle to a
/// resource.
pub open spec fn opened<P: Platform>(vm: Vm<P>, vm2: Vm<P>, path: Value, mode: Value, r: Result<Value, Fault>) -> bool {
    &&& !(path is Str) ==> type_fault(r)
    &&& path is Str && !(mode is Keyword) ==> type_fault(r)
    &&& path is Str && (mode matches Value::Keyword(k) && open_mode(
        crate::bytecode::name_text(vm.interner@, k.0),
    ) is None) ==> type_fault(r)
    &&& r matches Ok(v) ==> v matches Value::Handle(id) && (vm.handles.slots() < u32::MAX
        ==> vm2.host_spec(id) matches Some(Host::Resource(_)))
}

/// What `io/read` gives back: refusals of what is not a handle or a count,
/// `:closed` for a handle that names nothing, and bytes when it reads.
pub open spec fn read_some<P: Platform>(vm: Vm<P>, h: Value, n: Value, r: Result<Value, Fault>) -> bool {
    &&& !(h is Handle) ==> type_fault(r)
    &&& h is Handle && !(n matches Value::Int(k) && k >= 0) ==> type_fault(r)
    &&& match (h, n) {
        (Value::Handle(id), Value::Int(k)) => k >= 0 ==> match vm.host_spec(id) {
            None => r matches Err(Fault::Io { kind, .. }) && kind == IoKind::Closed,
            Some(Host::Stdout) => type_fault(r),
            _ => r matches Ok(v) ==> v is Bytes,
        },
        _ => true,
    }
}

/// What `io/read-all` gives back: as `io/read`, without a count.
pub open spec fn read_rest<P: Platform>(vm: Vm<P>, h: Value, r: Result<Value, Fault>) -> bool {
    &&& match h {
        Value::Handle(id) => match vm.host_spec(id) {
            None => r matches Err(Fault::Io { kind, .. }) && kind == IoKind::Closed,
            Some(Host::Stdout) => type_fault(r),
            _ => r matches Ok(v) ==> v is Bytes,
        },
        _ => type_fault(r),
    }
}

/// What `io/write` does: refusals of what is not a handle or text or bytes,
/// `:closed` for a handle that names nothing, and text written to standard
/// output lands in the machine's output.
pub open spec fn written<P: Platform>(vm: Vm<P>, vm2: Vm<P>, h: Value, data: Value, r: Result<Value, Fault>) -> bool {
    &&& !(h is Handle) ==> type_fault(r)
    &&& h is Handle && !(data is Bytes || data is Str) ==> type_fault(r)
    &&& match (h, data) {
        (Value::Handle(id), Value::Str(s)) => vm.host_spec(id) == Some(Host::Stdout) ==> vm2.out@
            == vm.out@ + s.0@ && r is Ok,
        (Value::Handle(id), Value::Bytes(b)) => vm.host_spec(id) == Some(Host::Stdout) ==> if vstd::utf8::valid_utf8(b.0@) {
            vm2.out@ == vm.out@ + vstd::utf8::decode_utf8(b.0@) && r is Ok
        } else {
            r matches Err(Fault::Io { kind, .. }) && kind == IoKind::InvalidData
        },
        _ => true,
    }
    &&& match (h, data) {
        (Value::Handle(id), Value::Str(_)) => vm.host_spec(id) is None ==> (r matches Err(
            Fault::Io { kind, .. },
        ) && kind == IoKind::Closed),
        (Value::Handle(id), Value::Bytes(_)) => vm.host_spec(id) is None ==> (r matches Err(
            Fault::Io { kind, .. },
        ) && kind == IoKind::Closed),
        _ => true,
    }
}

/// `(io/open path mode)`, mode one of `:read`, `:write`, `:append`.
pub fn io_open<P: Platform>(vm: &mut Vm<P>, path: &Value, mode: &Value) -> (r: Result<Value, Fault>)
    ensures
        opened(*old(vm), *final(vm), *path, *mode, r),
{
    let path = match string_arg(path, "io/open") {
        Ok(p) => copy_str(p),
        Err(e) => {
            return Err(e);
        },
    };
    let name = match mode {
        Value::Keyword(k) => copy_str(vm.interner.name_or_empty(k.0)),
        other => {
            return Err(misuse(cat("`io/open` needs a mode keyword, not a ", kind_name(other))));
        },
    };
    let m = if crate::text::str_eq(name.as_str(), "read") {
        OpenMode::Read
    } else if crate::text::str_eq(name.as_str(), "write") {
        OpenMode::Write
    } else if crate::text::str_eq(name.as_str(), "append") {
        OpenMode::Append
    } else {
        return Err(misuse(cat("`io/open`: mode is :read, :write, or :append, not :", name.as_str())));
    };
    match vm.platform.open_file(path.as_str(), m) {
        Ok(res) => Ok(Value::Handle(vm.open_handle(Host::Resource(res)))),
        Err(c) => Err(host_failed(IoOp::Open, Some(path), c)),
    }
}

/// Closing twice is a no-op; closing through a stale id is an error.
pub fn io_close<P: Platform>(vm: &mut Vm<P>, h: &Value) -> (r: Result<Value, Fault>)
    ensures
        *h matches Value::Handle(id) ==> {
            &&& final(vm).host_spec(id) is None
            &&& (r is Ok <==> old(vm).handles.current(id))
        },
{
    let id = match handle_arg(h, "io/close") {
        Ok(id) => id,
        Err(e) => {
            return Err(e);
        },
    };
    if vm.close_handle(id) {
        Ok(Value::Nil)
    } else {
        Err(io_fault(IoOp::Close, IoKind::Closed, copy_str("the handle is stale: its slot has been reused")))
    }
}

pub fn io_is_open<P: Platform>(vm: &Vm<P>, h: &Value) -> (r: Result<Value, Fault>)
    ensures
        *h matches Value::Handle(id) ==> r == Ok::<Value, Fault>(Value::Bool(vm.host_spec(id) is Some)),
{
    let id = match handle_arg(h, "io/open?") {
        Ok(id) => id,
        Err(e) => {
            return Err(e);
        },
    };
    Ok(Value::Bool(vm.host(id).is_some()))
}

/// Up to `n` bytes. A short read is not an error and neither is the end of
/// input: empty bytes is the end.
pub fn io_read<P: Platform>(vm: &mut Vm<P>, h: &Value, n: &Value) -> (r: Result<Value, Fault>)
    ensures
        read_some(*old(vm), *h, *n, r),
{
    let id = match handle_arg(h, "io/read") {
        Ok(id) => id,
        Err(e) => {
            return Err(e);
        },
    };
    let count = match n {
        Value::Int(i) => {
            if *i >= 0 {
                *i as u64
            } else {
                let t = printer::display(n, &vm.interner, &vm.platform);
                return Err(misuse(cat("`io/read` needs a non-negative count, not ", t.as_str())));
            }
        },
        _ => {
            let t = printer::display(n, &vm.interner, &vm.platform);
            return Err(misuse(cat("`io/read` needs a non-negative count, not ", t.as_str())));
        },
    };
    let want: usize = if count > usize::MAX as u64 {
        usize::MAX
    } else {
        count as usize
    };
    match vm.host(id) {
        None => Err(not_live(IoOp::Read)),
        Some(Host::Resource(res)) => match vm.platform.read(res, want) {
            Ok(bytes) => Ok(Value::Bytes(Rc::new(BytesObj(bytes)))),
            Err(e) => Err(io_failure(IoOp::Read, e)),
        },
        Some(Host::Stdin) => match vm.platform.read_stdin(want) {
            Ok(bytes) => Ok(Value::Bytes(Rc::new(BytesObj(bytes)))),
            Err(c) => Err(host_failed(IoOp::Read, None, c)),
        },
        Some(Host::Stdout) => Err(misuse(copy_str("`io/read` cannot read from `io/stdout`"))),
    }
}

pub fn io_read_all<P: Platform>(vm: &mut Vm<P>, h: &Value) -> (r: Result<Value, Fault>)
    ensures
        read_rest(*old(vm), *h, r),
{
    let id = match handle_arg(h, "io/read-all") {
        Ok(id) => id,
        Err(e) => {
            return Err(e);
        },
    };
    match vm.host(id) {
        None => Err(not_live(IoOp::Read)),
        Some(Host::Resource(res)) => match vm.platform.read_to_end(res) {
            Ok(bytes) => Ok(Value::Bytes(Rc::new(BytesObj(bytes)))),
            Err(e) => Err(io_failure(IoOp::Read, e)),
        },
        Some(Host::Stdin) => match vm.platform.read_stdin_to_end() {
            Ok(bytes) => Ok(Value::Bytes(Rc::new(BytesObj(bytes)))),
            Err(c) => Err(host_failed(IoOp::Read, None, c)),
        },
        Some(Host::Stdout) => Err(misuse(copy_str("`io/read-all` cannot read from `io/stdout`"))),
    }
}

/// Write bytes or a string; the count written comes back. `io/stdout` takes
/// text, and what it takes goes where `println` goes.
pub fn io_write<P: Platform>(vm: &mut Vm<P>, h: &Value, data: &Value) -> (r: Result<Value, Fault>)
    ensures
        written(*old(vm), *final(vm), *h, *data, r),
{
    let id = match handle_arg(h, "io/write") {
        Ok(id) => id,
        Err(e) => {
            return Err(e);
        },
    };
    let bytes = match data {
        Value::Bytes(b) => crate::value::copy_bytes(&b.0),
        Value::Str(s) => s.0.as_str().as_bytes_vec(),
        other => {
            return Err(misuse(cat("`io/write` needs bytes or a string, not a ", kind_name(other))));
        },
    };
    let n = Value::Int(#[verifier::truncate] (bytes.len() as i64));
    match vm.host(id) {
        Some(Host::Stdout) => {
            match data {
                Value::Str(s) => {
                    vm.emit(s.0.as_str());
                    return Ok(n);
                },
                _ => {},
            }
            match crate::prim::utf8_text(&bytes) {
                Ok(text) => {
                    vm.emit(text.as_str());
                    Ok(n)
                },
                Err(at) => {
                    let t = crate::text::nat_to_text(at as u64);
                    Err(
                        io_fault(
                            IoOp::Write,
                            IoKind::InvalidData,
                            cat("`io/stdout` takes text, and these bytes are not valid UTF-8 at byte ", t.as_str()),
                        ),
                    )
                },
            }
        },
        None => Err(not_live(IoOp::Write)),
        Some(Host::Resource(res)) => match vm.platform.write(res, bytes.as_slice()) {
            Ok(()) => Ok(n),
            Err(e) => Err(io_failure(IoOp::Write, e)),
        },
        Some(Host::Stdin) => Err(misuse(copy_str("`io/write` cannot write to `io/stdin`"))),
    }
}

} // verus!
