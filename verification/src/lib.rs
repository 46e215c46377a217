//! apolisp — a small Lisp in the Clojure dialect with its own VM.

pub mod text;
pub mod error;
pub mod platform;
pub mod value;
pub mod reader;
pub mod printer;
pub mod bytecode;
pub mod compile;
pub mod vm;
pub mod prim;
pub mod host;
pub mod expand;
pub mod image;
pub mod json;
pub mod session;
