//! Fuel suspension, `Image`, and resume: run to fuel exhaustion at an
//! instruction boundary, take an `Image`, resume it in a fresh VM of the same
//! build, and compare the full transcript with the uninterrupted run.

use apolisp::bytecode::Chunk;
use apolisp::image::{self, SnapshotError};
use apolisp::platform::{AdapterFn, ErrorClass, FloatOp, IoFailure, OpenMode, Platform};
use apolisp::value::{StrObj, Value};
use apolisp::vm::{Fault, Outcome, Vm};
use apolisp::{compile, expand, printer, reader, vm};
use std::rc::Rc;

/// A host with IEEE floats and no files.
struct Host;

impl Platform for Host {
    fn parse_float(&self, text: &str) -> Option<u64> {
        text.parse::<f64>().ok().map(f64::to_bits)
    }
    fn format_float(&self, bits: u64) -> String {
        f64::from_bits(bits).to_string()
    }
    fn int_to_float(&self, i: i64) -> u64 {
        (i as f64).to_bits()
    }
    fn float_op(&self, op: FloatOp, a: u64, b: u64) -> u64 {
        let (x, y) = (f64::from_bits(a), f64::from_bits(b));
        match op {
            FloatOp::Add => x + y,
            FloatOp::Sub => x - y,
            FloatOp::Mul => x * y,
            FloatOp::Div => x / y,
        }
        .to_bits()
    }
    fn open_file(&mut self, _path: &str, _mode: OpenMode) -> Result<u64, ErrorClass> {
        Err(ErrorClass::NotFound)
    }
    fn read(&mut self, _res: u64, _n: usize) -> Result<Vec<u8>, IoFailure> {
        Err(IoFailure::Os(ErrorClass::Other))
    }
    fn read_to_end(&mut self, _res: u64) -> Result<Vec<u8>, IoFailure> {
        Err(IoFailure::Os(ErrorClass::Other))
    }
    fn write(&mut self, _res: u64, _bytes: &[u8]) -> Result<(), IoFailure> {
        Err(IoFailure::Os(ErrorClass::Other))
    }
    fn close(&mut self, _res: u64) {}
    fn read_stdin(&mut self, _n: usize) -> Result<Vec<u8>, ErrorClass> {
        Ok(Vec::new())
    }
    fn read_stdin_to_end(&mut self) -> Result<Vec<u8>, ErrorClass> {
        Ok(Vec::new())
    }
    fn adapters(&self) -> Vec<AdapterFn> {
        Vec::new()
    }
    fn call_adapter(_vm: &mut Vm<Self>, _which: u32, _args: &Vec<Value>) -> Result<Value, Fault> {
        Ok(Value::Nil)
    }
}


/// A finished run, as the transcript the driver would print.
#[derive(PartialEq, Eq, Debug)]
struct Transcript {
    output: String,
    ended: String,
}

/// What every program is handed as its arguments: two of them, and
/// distinguishable, so a round trip that kept the vector and lost its order
/// fails as loudly as one that dropped it.
const ARGS: [&str; 2] = ["alpha", "beta"];

/// Read, expand, compile.
fn build(src: &str) -> (Vm<Host>, Chunk) {
    let mut machine = Vm::new(Host);
    let args: Vec<Value> = ARGS
        .iter()
        .map(|a| Value::Str(Rc::new(StrObj(a.to_string()))))
        .collect();
    machine.set_named_global("*command-line-args*", Value::Vec(Rc::new(args)));
    let forms = reader::read_all(src, &mut machine.interner, &machine.platform)
        .map_err(|e| e.render("<test>", src))
        .expect("the test source reads");
    let forms = expand::expand_all(forms, &mut machine)
        .map_err(|e| e.render("<test>", src))
        .expect("the test source expands");
    let chunk = compile::compile(&forms, &mut machine.interner)
        .map_err(|e| e.render("<test>", src))
        .expect("the test source compiles");
    (machine, chunk)
}

fn finish(vm: &mut Vm<Host>, outcome: Outcome) -> Transcript {
    let ended = match outcome {
        Outcome::Returned(v) => format!("value {}", printer::print(&v, &vm.interner, &vm.platform)),
        Outcome::Threw(u) => format!("threw {}", printer::print(&u.value, &vm.interner, &vm.platform)),
        Outcome::Suspended => unreachable!("asked to finish a run that suspended"),
    };
    Transcript {
        output: vm.take_output(),
        ended,
    }
}

fn uninterrupted(src: &str) -> Transcript {
    let (mut vm, chunk) = build(src);
    let (outcome, _, _) = vm::run_fueled(&mut vm, &chunk, vm::start(&chunk), u64::MAX);
    finish(&mut vm, outcome)
}

/// How many instructions the program takes when nothing interrupts it.
fn steps(src: &str) -> u64 {
    let (mut vm, chunk) = build(src);
    let mut ex = vm::start(&chunk);
    let mut n = 0;
    loop {
        let (outcome, next, _) = vm::run_fueled(&mut vm, &chunk, ex, 1);
        ex = next;
        match outcome {
            Outcome::Suspended => n += 1,
            _ => return n,
        }
        assert!(n < 100_000, "runaway program in the harness");
    }
}

/// Run `src`, cut after exactly `cut` instructions, round-trip through an
/// `Image` into a fresh VM, and finish there.
fn cut_and_resume(src: &str, cut: u64) -> Transcript {
    let (mut vm, chunk) = build(src);
    let (outcome, ex, _) = vm::run_fueled(&mut vm, &chunk, vm::start(&chunk), cut);
    assert!(
        matches!(outcome, Outcome::Suspended),
        "cutting at {cut} did not suspend"
    );
    let img = image::capture(&vm, &ex, &chunk).expect("no handles are open");
    drop((vm, ex));
    let (mut fresh, ex) = image::restore(&img, &chunk, Host).expect("the chunk matches");
    let (outcome, _, _) = vm::run_fueled(&mut fresh, &chunk, ex, u64::MAX);
    finish(&mut fresh, outcome)
}

const PROGRAMS: &[(&str, &str)] = &[
    ("globals and cells", "(def a 1) (def b (+ a 2)) (println a b) b"),
    (
        "a program's arguments",
        "(println (nth *command-line-args* 1)) (str *command-line-args*)",
    ),
    (
        "closures and captures",
        "(def mk (fn mk [n] (fn [] n))) (def f (mk 7)) (println (f)) (f)",
    ),
    (
        "a frame stack mid-call",
        "(def deep (fn deep [n] (if (< n 1) 0 (+ 1 (deep (- n 1)))))) (println (deep 6)) (deep 4)",
    ),
    (
        "handlers and a caught throw",
        "(println (try (throw :boom) (catch e e) (finally (println :cleanup)))) :done",
    ),
    (
        "a parked unwind mid-cleanup",
        "(try (try (throw :original) (finally (println :running) (throw :from-cleanup))) (catch e e))",
    ),
    (
        "a parked unwind that reaches the transcript",
        "(try (try (throw :original) (finally (throw :from-cleanup))) (finally (println :outer)))",
    ),
    (
        "collections, strings, and shared structure",
        "(def a [1 2 3]) (def b [a a]) (def c {:k b :j b}) (println (count c) (str \"x\" \"y\")) c",
    ),
    (
        "the numeric tower and float edges",
        "(println (/ 1.0 0.0) (/ -1.0 0.0) (+ 1 2.5)) (* 1.0e308 10.0)",
    ),
    (
        "a tail loop, which suspends in a hot frame",
        "(def go (fn go [n acc] (if (< n 1) acc (go (- n 1) (+ acc n))))) (println (go 12 0)) (go 5 0)",
    ),
    (
        "a program that ends by throwing",
        "(println :before) (throw {:type :app-error :kind :nope})",
    ),
    (
        "a run-time gensym counter",
        "(println (gensym \"x\") (gensym \"x\")) (gensym \"x\")",
    ),
    (
        "a negative zero, whose sign only shows on division",
        "(def z (* -1.0 0.0)) (println z (/ 1.0 z)) z",
    ),
];

#[test]
fn a_snapshot_at_every_instruction_boundary_reproduces_the_uninterrupted_run() {
    for (name, src) in PROGRAMS {
        let want = uninterrupted(src);
        let n = steps(src);
        assert!(n > 1, "{name}: nothing to cut");
        for cut in 1..n {
            let got = cut_and_resume(src, cut);
            assert_eq!(
                got, want,
                "{name}: cutting after {cut} of {n} instructions changed the run"
            );
        }
    }
}

#[test]
fn snapshotting_every_instruction_in_a_chain_reproduces_it_too() {
    for (name, src) in PROGRAMS {
        let want = uninterrupted(src);
        let (mut vm, chunk) = build(src);
        let mut ex = vm::start(&chunk);
        let outcome = loop {
            let (outcome, next, _) = vm::run_fueled(&mut vm, &chunk, ex, 1);
            match outcome {
                Outcome::Suspended => {
                    let img = image::capture(&vm, &next, &chunk).expect("no handles are open");
                    let (fresh, restored) =
                        image::restore(&img, &chunk, Host).expect("the chunk matches");
                    vm = fresh;
                    ex = restored;
                }
                done => break done,
            }
        };
        let got = finish(&mut vm, outcome);
        assert_eq!(got, want, "{name}: chained snapshots drifted");
    }
}

#[test]
fn an_image_refuses_a_chunk_it_was_not_taken_from() {
    let (mut vm, chunk) = build("(def a 1) (+ a 1)");
    let (outcome, ex, _) = vm::run_fueled(&mut vm, &chunk, vm::start(&chunk), 1);
    assert!(matches!(outcome, Outcome::Suspended));
    let img = image::capture(&vm, &ex, &chunk).expect("no handles are open");

    let (_, other) = build("(def a 2) (+ a 1)");
    assert_eq!(
        image::restore(&img, &other, Host).err(),
        Some(SnapshotError::ChunkMismatch)
    );
    assert!(image::restore(&img, &chunk, Host).is_ok());
}

#[test]
fn shared_structure_encodes_once_rather_than_per_reference() {
    fn objects(src: &str) -> usize {
        let (mut vm, chunk) = build(src);
        let n = steps(src);
        let (outcome, ex, _) = vm::run_fueled(&mut vm, &chunk, vm::start(&chunk), n - 1);
        assert!(matches!(outcome, Outcome::Suspended));
        image::capture(&vm, &ex, &chunk)
            .expect("no handles are open")
            .object_count()
    }

    let base = objects("(def a [1 2 3]) a");
    let shared = objects("(def a [1 2 3]) (def b [a a]) (def c [b b]) (def d [c c]) d");
    assert_eq!(
        shared - base,
        3,
        "expected 3 new objects (b, c, d); a copying encoder adds 14"
    );
}

#[test]
fn a_fingerprint_tells_two_chunks_apart_and_one_chunk_from_nothing() {
    let (_, a) = build("(def a 1) (+ a 1)");
    let (_, a_again) = build("(def a 1) (+ a 1)");
    let (_, b) = build("(def a 2) (+ a 1)");
    assert_eq!(image::fingerprint(&a), image::fingerprint(&a_again));
    assert_ne!(image::fingerprint(&a), image::fingerprint(&b));
}

#[test]
fn a_live_file_refuses_the_snapshot_and_counts_only_resources() {
    let (mut vm, chunk) = build("(+ 1 2)");
    let h = vm.open_handle(apolisp::host::Host::Resource(7));
    let ex = vm::start(&chunk);
    assert_eq!(
        image::capture(&vm, &ex, &chunk).unwrap_err(),
        SnapshotError::SnapshotHasLiveHandles(1)
    );
    assert!(vm.close_handle(h));
    assert!(image::capture(&vm, &ex, &chunk).is_ok());
}


#[test]
fn a_handle_beyond_the_standard_streams_refuses_the_snapshot() {
    let (mut vm, chunk) = build("1");
    let ex = vm::start(&chunk);
    let open = vm.open_handles();
    let h = vm.open_handle(apolisp::host::Host::Stdin);
    assert_eq!(vm.open_handles(), open + 1);
    assert_eq!(
        image::capture(&vm, &ex, &chunk).unwrap_err(),
        SnapshotError::SnapshotHasLiveHandles(open + 1 - 2)
    );
    assert!(vm.close_handle(h));
    assert!(image::capture(&vm, &ex, &chunk).is_ok());
}
