//! What the library asks of the machine it runs on: IEEE-754 arithmetic and
//! text, and the operating system's files and standard streams.
//!
//! Floats are carried as their bit patterns everywhere in the library; only
//! the host turns bits into numbers. The same holds for a resource: the
//! library holds a number the host handed out and asks the host to act on it.

use crate::value::Value;
use crate::vm::{Fault, Vm};
use vstd::prelude::*;

verus! {

/// The four float operations the numeric tower needs.
#[derive(Clone, Copy, PartialEq, Eq, Debug, Structural)]
pub enum FloatOp {
    Add,
    Sub,
    Mul,
    Div,
}

/// The operating system's classification of a failed operation.
#[derive(Clone, Copy, PartialEq, Eq, Debug, Structural)]
pub enum ErrorClass {
    NotFound,
    PermissionDenied,
    InvalidData,
    Interrupted,
    TimedOut,
    WouldBlock,
    ConnectionReset,
    ConnectionAborted,
    BrokenPipe,
    Other,
}

/// Why the host refused to act on a resource: the operating system said
/// no, or the resource is not one that supports the operation.
#[derive(Debug)]
pub enum IoFailure {
    Os(ErrorClass),
    Misuse(String),
}

/// How `io/open` opens a file.
#[derive(Clone, Copy, PartialEq, Eq, Debug, Structural)]
pub enum OpenMode {
    Read,
    Write,
    Append,
}

/// A primitive the host adds to the language: its name and arity.
#[derive(Debug)]
pub struct AdapterFn {
    pub name: String,
    pub min: u32,
    pub variadic: bool,
}

/// The host. Nothing here is assumed of an implementation; every caller in
/// the library takes whatever comes back and handles each case.
pub trait Platform: Sized {
    /// The float a decimal literal denotes, as bits, or `None` where the text
    /// is not a float literal.
    fn parse_float(&self, text: &str) -> Option<u64>;

    /// The shortest decimal text that reads back as this finite float.
    fn format_float(&self, bits: u64) -> String;

    /// The float nearest to an integer.
    fn int_to_float(&self, i: i64) -> u64;

    /// One IEEE-754 operation.
    fn float_op(&self, op: FloatOp, a: u64, b: u64) -> u64;

    /// Open a file; the number names it to the host from then on.
    fn open_file(&mut self, path: &str, mode: OpenMode) -> Result<u64, ErrorClass>;

    /// Up to `n` bytes; empty at the end of input.
    fn read(&mut self, res: u64, n: usize) -> Result<Vec<u8>, IoFailure>;

    /// Everything left.
    fn read_to_end(&mut self, res: u64) -> Result<Vec<u8>, IoFailure>;

    fn write(&mut self, res: u64, bytes: &[u8]) -> Result<(), IoFailure>;

    /// Release a resource. Closing is what flushes a file.
    fn close(&mut self, res: u64);

    fn read_stdin(&mut self, n: usize) -> Result<Vec<u8>, ErrorClass>;

    fn read_stdin_to_end(&mut self) -> Result<Vec<u8>, ErrorClass>;

    /// The primitives this host adds, in the order `call_adapter` numbers
    /// them.
    fn adapters(&self) -> Vec<AdapterFn>;

    /// Run the host primitive numbered `which` on arguments whose count its
    /// declared arity admits.
    fn call_adapter(vm: &mut Vm<Self>, which: u32, args: &Vec<Value>) -> Result<Value, Fault>;
}

} // verus!
