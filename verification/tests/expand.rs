//! Macro expansion, quasiquote, and gensym.

use apolisp::error::SpanOrigin;
use apolisp::platform::{AdapterFn, ErrorClass, FloatOp, IoFailure, OpenMode, Platform};
use apolisp::value::{check_origins, LocatedForm, Value};
use apolisp::vm::{Fault, Vm};
use apolisp::{expand, printer, reader};

/// A host with IEEE floats and no files.
struct Host;

impl Platform for Host {
    fn parse_float(&self, text: &str) -> Option<u64> {
        text.parse::<f64>().ok().map(f64::to_bits)
    }
    fn format_float(&self, bits: u64) -> String {
        f64::from_bits(bits).to_string()
    }
    fn int_to_float(&self, i: i64) -> u64 {
        (i as f64).to_bits()
    }
    fn float_op(&self, op: FloatOp, a: u64, b: u64) -> u64 {
        let (x, y) = (f64::from_bits(a), f64::from_bits(b));
        match op {
            FloatOp::Add => x + y,
            FloatOp::Sub => x - y,
            FloatOp::Mul => x * y,
            FloatOp::Div => x / y,
        }
        .to_bits()
    }
    fn open_file(&mut self, _path: &str, _mode: OpenMode) -> Result<u64, ErrorClass> {
        Err(ErrorClass::NotFound)
    }
    fn read(&mut self, _res: u64, _n: usize) -> Result<Vec<u8>, IoFailure> {
        Err(IoFailure::Os(ErrorClass::Other))
    }
    fn read_to_end(&mut self, _res: u64) -> Result<Vec<u8>, IoFailure> {
        Err(IoFailure::Os(ErrorClass::Other))
    }
    fn write(&mut self, _res: u64, _bytes: &[u8]) -> Result<(), IoFailure> {
        Err(IoFailure::Os(ErrorClass::Other))
    }
    fn close(&mut self, _res: u64) {}
    fn read_stdin(&mut self, _n: usize) -> Result<Vec<u8>, ErrorClass> {
        Ok(Vec::new())
    }
    fn read_stdin_to_end(&mut self) -> Result<Vec<u8>, ErrorClass> {
        Ok(Vec::new())
    }
    fn adapters(&self) -> Vec<AdapterFn> {
        Vec::new()
    }
    fn call_adapter(_vm: &mut Vm<Self>, _which: u32, _args: &Vec<Value>) -> Result<Value, Fault> {
        Ok(Value::Nil)
    }
}

/// Expand a source string and print the resulting forms, one per line.
fn expanded(src: &str) -> Result<String, String> {
    let mut machine = Vm::new(Host);
    let forms = reader::read_all(src, &mut machine.interner, &machine.platform)
        .map_err(|e| e.render("<test>", src))?;
    let out = expand::expand_all(forms, &mut machine).map_err(|e| e.render("<test>", src))?;
    Ok(out
        .iter()
        .map(|f| printer::print(&f.root, &machine.interner, &machine.platform))
        .collect::<Vec<_>>()
        .join("\n"))
}

fn expand_ok(src: &str) -> String {
    expanded(src).unwrap_or_else(|e| panic!("{src:?}: {e}"))
}

fn expand_err(src: &str) -> String {
    expanded(src).expect_err(&format!("{src:?} should not expand"))
}

fn expand_located(src: &str) -> (Vec<LocatedForm>, Vm<Host>) {
    let mut machine = Vm::new(Host);
    let forms = reader::read_all(src, &mut machine.interner, &machine.platform).expect("reads");
    let out = expand::expand_all(forms, &mut machine).expect("expands");
    (out, machine)
}

#[test]
fn defmacro_comes_from_the_prelude_in_the_language() {
    assert_eq!(
        expand_ok("(defmacro one [] `(+ 1 0))\n(one)"),
        "(quote one)\n(+ 1 0)"
    );
    assert_eq!(expand_ok("(def x 1)"), "(set-global! x 1)");
    assert_eq!(
        expand_ok("(set-macro! two (fn [] 2))\n(two)"),
        "(quote two)\n2"
    );
}

#[test]
fn a_macro_is_available_after_its_definition_and_not_before() {
    assert_eq!(
        expand_ok("(when a b)\n(defmacro when [t & b] `(if ~t (do ~@b) nil))"),
        "(when a b)\n(quote when)"
    );
}

#[test]
fn a_template_lowers_to_the_calls_that_build_it() {
    for (src, want) in [
        ("`(a 1 :k \"s\")", "(list (quote a) 1 :k \"s\")"),
        ("`(a ~b)", "(list (quote a) b)"),
        ("`(1 ~@xs 4)", "(concat (list 1) xs (list 4))"),
        ("`(~@xs)", "(concat xs)"),
        ("`[1 ~x]", "(vector 1 x)"),
        ("`[~@xs]", "(vec (concat xs))"),
        ("`{:k ~v}", "(hash-map :k v)"),
        ("`(quote ~x)", "(list (quote quote) x)"),
    ] {
        assert_eq!(expand_ok(src), want, "{src}");
    }
}

#[test]
fn template_errors_say_where() {
    for (src, want) in [
        ("~x", "`unquote` outside a quasiquote"),
        ("~@x", "`unquote-splicing` outside a quasiquote"),
        ("`(a `b)", "quasiquote inside a quasiquote"),
        ("`{~@xs :k}", "map template"),
    ] {
        let err = expand_err(src);
        assert!(err.contains(want), "{src}: expected {want:?}, got {err:?}");
        assert!(err.contains(":1:"), "{src}: no position in {err:?}");
    }
}

#[test]
fn auto_gensym_is_one_fresh_name_per_template() {
    let out = expand_ok("(defmacro twice [e] `(let [v# ~e] (+ v# v#)))\n(twice 21)");
    assert!(out.contains("(let [v__1 21] (+ v__1 v__1))"), "got {out}");

    let out = expand_ok(
        "(defmacro a [e] `(let [v# ~e] v#))\n(defmacro b [e] `(let [v# ~e] v#))\n(a 1)\n(b 2)",
    );
    assert!(out.contains("(let [v__1 1] v__1)"), "got {out}");
    assert!(out.contains("(let [v__2 2] v__2)"), "got {out}");

    assert_eq!(
        expand_ok("(defmacro twice [e] `(let [v# ~e] (+ v# v#)))\n(let [v 1] (twice v))"),
        "(quote twice)\n(let [v 1] (let [v__1 v] (+ v__1 v__1)))"
    );
}

#[test]
fn expansion_is_deterministic_across_units() {
    let src = "(defmacro t [e] `(let [v# ~e] v#))\n(t 1)\n(t 2)";
    assert_eq!(expand_ok(src), expand_ok(src));

    let mut machine = Vm::new(Host);
    let once = {
        let forms = reader::read_all(src, &mut machine.interner, &machine.platform).expect("reads");
        expand::expand_all(forms, &mut machine).expect("expands")
    };
    let twice = {
        let forms = reader::read_all(src, &mut machine.interner, &machine.platform).expect("reads");
        expand::expand_all(forms, &mut machine).expect("expands")
    };
    let print = |fs: &[LocatedForm], m: &Vm<Host>| {
        fs.iter()
            .map(|f| printer::print(&f.root, &m.interner, &m.platform))
            .collect::<Vec<_>>()
            .join("\n")
    };
    assert_eq!(print(&once, &machine), print(&twice, &machine));
}

#[test]
fn gensym_is_available_to_a_macro_that_computes_a_name() {
    let out = expand_ok("(defmacro t [] (list (quote quote) (gensym \"n\")))\n(t)");
    assert!(out.ends_with("(quote n__1)"), "got {out}");
}

#[test]
fn expansion_reaches_a_fixed_point() {
    assert_eq!(
        expand_ok(
            "(defmacro when [t & b] `(if ~t (do ~@b) nil))\n\
             (defmacro unless [t & b] `(when (if ~t false true) ~@b))\n\
             (unless :c :x)"
        ),
        "(quote when)\n(quote unless)\n(if (if :c false true) (do :x) nil)"
    );
}

#[test]
fn a_quote_is_data_and_is_not_expanded() {
    assert_eq!(
        expand_ok("(defmacro when [t & b] `(if ~t (do ~@b) nil))\n(quote (when a b))"),
        "(quote when)\n(quote (when a b))"
    );
}

#[test]
fn a_macro_receives_unexpanded_forms() {
    assert_eq!(
        expand_ok(
            "(defmacro inner [] :expanded)\n             (defmacro outer [x] `(quote ~x))\n             (outer (inner))"
        ),
        "(quote inner)\n(quote outer)\n(quote (inner))"
    );
}

#[test]
fn expansion_is_bounded() {
    let err = expand_err("(defmacro loop2 [] `(loop2))\n(loop2)");
    assert!(err.contains("rewriting to itself"), "got {err:?}");

    let err = expand_err("(defmacro deep [n] `(list ~n (deep ~n)))\n(deep 1)");
    assert!(
        err.contains("nested more than") || err.contains("rewriting to itself"),
        "got {err:?}"
    );
}

#[test]
fn a_macro_that_fails_reports_the_call_site() {
    let err = expand_err("(defmacro bad [] (throw :boom))\n(bad)");
    assert!(err.contains("macro `bad` threw :boom"), "got {err:?}");
    assert!(err.contains(":2:"), "the call site, not the body — {err:?}");

    let err = expand_err("(defmacro one [x] `(+ ~x 1))\n(one)");
    assert!(err.contains(":kind :arity"), "got {err:?}");

    let err = expand_err("(set-macro! nope 42)");
    assert!(err.contains("must be a function"), "got {err:?}");
}

#[test]
fn macro_output_carries_the_call_site_and_keeps_what_it_passed_through() {
    let src = "(defmacro when [t & b] `(if ~t (do ~@b) nil))\n(when (ready?) (go))";
    let (forms, _vm) = expand_located(src);
    let call = &forms[1];
    assert!(
        matches!(call.origins.origin, SpanOrigin::Generated(_)),
        "the expansion root should be generated, got {:?}",
        call.origins.origin
    );
    let test = &call.origins.children[1];
    let span = match test.origin {
        SpanOrigin::Source(s) => s,
        other => panic!("a passed-through argument should keep its source: {other:?}"),
    };
    assert_eq!(&src[span.start as usize..span.end as usize], "(ready?)");

    let mut problems = Vec::new();
    for f in &forms {
        check_origins(&f.root, &f.origins, src, &mut problems);
    }
    assert!(problems.is_empty(), "{problems:?}");

    let (plain, _) = expand_located("(f 1)");
    assert!(matches!(plain[0].origins.origin, SpanOrigin::Source(_)));
    assert!(matches!(plain[0].root, Value::List(_)));
}
