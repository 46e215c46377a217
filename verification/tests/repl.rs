//! Sessions: one VM, one chunk, one macro table across inputs.

use apolisp::platform::{AdapterFn, ErrorClass, FloatOp, IoFailure, OpenMode, Platform};
use apolisp::value::Value;
use apolisp::vm::{Fault, Vm};
use apolisp::printer;
use apolisp::session::{self, Ended, Session};

/// A host with IEEE floats and no files.
struct Host;

impl Platform for Host {
    fn parse_float(&self, text: &str) -> Option<u64> {
        text.parse::<f64>().ok().map(f64::to_bits)
    }
    fn format_float(&self, bits: u64) -> String {
        f64::from_bits(bits).to_string()
    }
    fn int_to_float(&self, i: i64) -> u64 {
        (i as f64).to_bits()
    }
    fn float_op(&self, op: FloatOp, a: u64, b: u64) -> u64 {
        let (x, y) = (f64::from_bits(a), f64::from_bits(b));
        match op {
            FloatOp::Add => x + y,
            FloatOp::Sub => x - y,
            FloatOp::Mul => x * y,
            FloatOp::Div => x / y,
        }
        .to_bits()
    }
    fn open_file(&mut self, _path: &str, _mode: OpenMode) -> Result<u64, ErrorClass> {
        Err(ErrorClass::NotFound)
    }
    fn read(&mut self, _res: u64, _n: usize) -> Result<Vec<u8>, IoFailure> {
        Err(IoFailure::Os(ErrorClass::Other))
    }
    fn read_to_end(&mut self, _res: u64) -> Result<Vec<u8>, IoFailure> {
        Err(IoFailure::Os(ErrorClass::Other))
    }
    fn write(&mut self, _res: u64, _bytes: &[u8]) -> Result<(), IoFailure> {
        Err(IoFailure::Os(ErrorClass::Other))
    }
    fn close(&mut self, _res: u64) {}
    fn read_stdin(&mut self, _n: usize) -> Result<Vec<u8>, ErrorClass> {
        Ok(Vec::new())
    }
    fn read_stdin_to_end(&mut self) -> Result<Vec<u8>, ErrorClass> {
        Ok(Vec::new())
    }
    fn adapters(&self) -> Vec<AdapterFn> {
        Vec::new()
    }
    fn call_adapter(_vm: &mut Vm<Self>, _which: u32, _args: &Vec<Value>) -> Result<Value, Fault> {
        Ok(Value::Nil)
    }
}


/// Evaluate one input and render it the way the prompt would.
fn eval(s: &mut Session<Host>, src: &str) -> String {
    match s.eval(src) {
        Ok(ended) => {
            let out = s.take_output();
            let tail = match ended {
                Ended::Value(v) => printer::print(&v, &s.vm.interner, &s.vm.platform),
                Ended::Threw(u) => format!("threw {}", printer::print(&u.value, &s.vm.interner, &s.vm.platform)),
            };
            format!("{out}{tail}")
        }
        Err(e) => format!("error {}", e.msg),
    }
}

#[test]
fn a_function_defined_in_one_input_is_callable_from_a_later_one() {
    let mut s = Session::new(Host);
    assert_eq!(eval(&mut s, "(def double (fn double [x] (* x 2)))"), "#<fn>");
    assert_eq!(eval(&mut s, "(def quad (fn quad [x] (double (double x))))"), "#<fn>");
    assert_eq!(eval(&mut s, "(quad 5)"), "20");
    assert_eq!(eval(&mut s, "(double 21)"), "42");
    assert_eq!(eval(&mut s, "(def add-n (fn add-n [n] (fn [x] (+ x n))))"), "#<fn>");
    assert_eq!(eval(&mut s, "(def add3 (add-n 3))"), "#<fn>");
    assert_eq!(eval(&mut s, "(add3 4)"), "7");
}

#[test]
fn a_macro_defined_in_one_input_is_in_scope_in_the_next() {
    let mut s = Session::new(Host);
    eval(&mut s, "(defmacro twice [x] `(+ ~x ~x))");
    assert_eq!(eval(&mut s, "(twice 21)"), "42");
    eval(&mut s, "(defmacro quadruple [x] `(twice (twice ~x)))");
    assert_eq!(eval(&mut s, "(quadruple 3)"), "12");
}

#[test]
fn the_gensym_counter_never_restarts_within_a_session() {
    let mut s = Session::new(Host);
    let mut seen = Vec::new();
    for _ in 0..5 {
        seen.push(eval(&mut s, "(gensym \"g\")"));
    }
    let mut sorted = seen.clone();
    sorted.sort();
    sorted.dedup();
    assert_eq!(sorted.len(), seen.len(), "a name was reissued: {seen:?}");
}

#[test]
fn a_thrown_value_does_not_end_the_session() {
    let mut s = Session::new(Host);
    eval(&mut s, "(def x 1)");
    assert!(eval(&mut s, "(no-such-global)").starts_with("threw"));
    assert!(eval(&mut s, "(throw :deliberate)").starts_with("threw"));
    assert_eq!(eval(&mut s, "x"), "1");
    assert_eq!(eval(&mut s, "(def y 2) (+ x y)"), "3");
    assert!(eval(&mut s, "(def z 9) (throw :after)").starts_with("threw"));
    assert_eq!(eval(&mut s, "z"), "9");
}

#[test]
fn a_suppressed_error_survives_the_session() {
    let mut s = Session::new(Host);
    match s.eval("(try (throw :original) (finally (throw :from-cleanup)))") {
        Ok(Ended::Threw(u)) => {
            assert_eq!(printer::print(&u.value, &s.vm.interner, &s.vm.platform), ":from-cleanup");
            assert_eq!(
                u.suppressed
                    .iter()
                    .map(|v| printer::print(v, &s.vm.interner, &s.vm.platform))
                    .collect::<Vec<_>>(),
                vec![":original"],
                "the displaced error was dropped"
            );
        }
        _ => panic!("the cleanup's throw should have escaped"),
    }
}

#[test]
fn an_input_that_does_not_build_leaves_the_session_alone() {
    let mut s = Session::new(Host);
    eval(&mut s, "(def a 1)");
    assert!(eval(&mut s, ")").starts_with("error"));
    assert!(eval(&mut s, "(let [x] x)").starts_with("error"));
    assert_eq!(eval(&mut s, "a"), "1");

    eval(&mut s, "(def double (fn [x] (* x 2)))");
    assert!(eval(&mut s, "(loop [i 0] (+ 1 (recur (+ i 1))))").starts_with("error"));
    assert_eq!(eval(&mut s, "(double 21)"), "42");
    assert_eq!(eval(&mut s, "(loop [i 0] (if (= i 3) (double i) (recur (+ i 1))))"), "6");
}

#[test]
fn incomplete_input_asks_for_more_and_wrong_input_does_not() {
    for open in [
        "(+ 1",
        "(+ 1 (* 2",
        "[1 2",
        "{:a 1",
        "{:a",
        "\"unterminated",
        "`(a ~",
        "(f ; a comment does not close it\n",
    ] {
        assert!(session::wants_more(open, &Host), "{open:?} should want more");
    }
    for done in [
        "(+ 1 2)",
        "[1 2]",
        "{:a 1}",
        "\"a string with ( in it\"",
        "; just a comment\n",
        ")",
        "(+ 1 2))",
        "{:a 1 :b}",
    ] {
        assert!(!session::wants_more(done, &Host), "{done:?} should not want more");
    }
}

#[test]
fn whitespace_is_complete_and_an_open_string_asks_for_more() {
    assert!(!apolisp::session::wants_more("   \n\t", &Host));
    assert!(!apolisp::session::wants_more("", &Host));
    assert!(apolisp::session::wants_more("\"still open", &Host));
    assert!(apolisp::session::wants_more("\"ends in an escape \\\\", &Host));
}
