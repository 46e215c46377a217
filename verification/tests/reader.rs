//! The reader, the printer, and the values they share.

use apolisp::error::SpanOrigin;
use apolisp::platform::{AdapterFn, ErrorClass, FloatOp, IoFailure, OpenMode, Platform};
use apolisp::value::{Interner, LocatedForm, Value};
use apolisp::vm::{Fault, Vm};
use apolisp::{printer, reader, value};

/// A host with IEEE floats and no files.
struct Host;

impl Platform for Host {
    fn parse_float(&self, text: &str) -> Option<u64> {
        text.parse::<f64>().ok().map(f64::to_bits)
    }
    fn format_float(&self, bits: u64) -> String {
        f64::from_bits(bits).to_string()
    }
    fn int_to_float(&self, i: i64) -> u64 {
        (i as f64).to_bits()
    }
    fn float_op(&self, op: FloatOp, a: u64, b: u64) -> u64 {
        let (x, y) = (f64::from_bits(a), f64::from_bits(b));
        match op {
            FloatOp::Add => x + y,
            FloatOp::Sub => x - y,
            FloatOp::Mul => x * y,
            FloatOp::Div => x / y,
        }
        .to_bits()
    }
    fn open_file(&mut self, _path: &str, _mode: OpenMode) -> Result<u64, ErrorClass> {
        Err(ErrorClass::NotFound)
    }
    fn read(&mut self, _res: u64, _n: usize) -> Result<Vec<u8>, IoFailure> {
        Err(IoFailure::Os(ErrorClass::Other))
    }
    fn read_to_end(&mut self, _res: u64) -> Result<Vec<u8>, IoFailure> {
        Err(IoFailure::Os(ErrorClass::Other))
    }
    fn write(&mut self, _res: u64, _bytes: &[u8]) -> Result<(), IoFailure> {
        Err(IoFailure::Os(ErrorClass::Other))
    }
    fn close(&mut self, _res: u64) {}
    fn read_stdin(&mut self, _n: usize) -> Result<Vec<u8>, ErrorClass> {
        Ok(Vec::new())
    }
    fn read_stdin_to_end(&mut self) -> Result<Vec<u8>, ErrorClass> {
        Ok(Vec::new())
    }
    fn adapters(&self) -> Vec<AdapterFn> {
        Vec::new()
    }
    fn call_adapter(_vm: &mut Vm<Self>, _which: u32, _args: &Vec<Value>) -> Result<Value, Fault> {
        Ok(Value::Nil)
    }
}


fn read(src: &str) -> Result<(Vec<LocatedForm>, Interner), String> {
    let mut interner = Interner::new();
    match reader::read_all(src, &mut interner, &Host) {
        Ok(forms) => Ok((forms, interner)),
        Err(e) => Err(e.render("<test>", src)),
    }
}

fn print_all(forms: &[LocatedForm], interner: &Interner) -> String {
    let mut out = String::new();
    for f in forms {
        out.push_str(&printer::print(&f.root, interner, &Host));
        out.push('\n');
    }
    out
}

/// Structural identity, for asking "did this survive the trip" rather than
/// "does the language consider these equal": floats by bit pattern, symbols
/// and keywords by name, since the two sides live in separate interners.
fn same_value(a: &Value, ai: &Interner, b: &Value, bi: &Interner) -> bool {
    match (a, b) {
        (Value::Nil, Value::Nil) => true,
        (Value::Bool(x), Value::Bool(y)) => x == y,
        (Value::Int(x), Value::Int(y)) => x == y,
        (Value::Float(x), Value::Float(y)) => x == y,
        (Value::Str(x), Value::Str(y)) => x.0 == y.0,
        (Value::Bytes(x), Value::Bytes(y)) => x.0 == y.0,
        (Value::Sym(x), Value::Sym(y)) => ai.name(x.0) == bi.name(y.0),
        (Value::Keyword(x), Value::Keyword(y)) => ai.name(x.0) == bi.name(y.0),
        (Value::List(_), Value::List(_)) | (Value::Vec(_), Value::Vec(_)) | (Value::Dict(_), Value::Dict(_)) => {
            let (xs, ys) = (value::children(a), value::children(b));
            xs.len() == ys.len() && xs.iter().zip(&ys).all(|(x, y)| same_value(x, ai, y, bi))
        }
        _ => false,
    }
}

/// `read(print(read(s))) == read(s)`, compared on data and ignoring origins.
fn assert_round_trips(src: &str, label: &str) {
    let (once, oi) = read(src).unwrap_or_else(|e| panic!("{label}: {e}"));
    let printed = print_all(&once, &oi);
    let (twice, ti) = read(&printed)
        .unwrap_or_else(|e| panic!("{label}: printed as {printed:?}, which failed to read: {e}"));
    assert_eq!(once.len(), twice.len(), "{label}: form count changed via {printed:?}");
    for (i, (a, b)) in once.iter().zip(&twice).enumerate() {
        assert!(
            same_value(&a.root, &oi, &b.root, &ti),
            "{label}: form {i} changed across a round trip via {printed:?}"
        );
    }
}

#[test]
fn round_trip_covers_awkward_scalars() {
    for case in [
        "1.0",
        "-0.0",
        "1e10",
        "##Inf",
        "##-Inf",
        "##NaN",
        "\"\"",
        "\"a\\nb\"",
        "\"\\\\\"",
        "\"héllo 🙂\"",
        "(1.0 2 \"3\" :4 five)",
        "(δ :χ \"ω\")",
        "{}",
        "()",
        "'()",
        "{:a 1 :b [2 3]}",
    ] {
        assert_round_trips(case, case);
    }
}

#[test]
fn non_finite_floats_do_not_change_type_across_a_round_trip() {
    for (src, want) in [("##Inf", f64::INFINITY), ("##-Inf", f64::NEG_INFINITY)] {
        let (forms, _) = read(src).unwrap_or_else(|e| panic!("{src}: {e}"));
        match forms[0].root {
            Value::Float(f) => assert_eq!(f64::from_bits(f), want, "{src} read as the wrong float"),
            ref other => panic!("{src} read as {}, not a float", value::kind_name(other)),
        }
    }

    let (forms, _) = read("##NaN").unwrap();
    match forms[0].root {
        Value::Float(f) => assert!(f64::from_bits(f).is_nan(), "##NaN read as {f}"),
        ref other => panic!("##NaN read as {}", value::kind_name(other)),
    }

    let err = read("1e400").expect_err("1e400 should not read");
    assert!(err.contains("overflows to infinity"), "got {err:?}");
}

#[test]
fn value_equality_is_the_hand_written_one() {
    let mut i = Interner::new();
    let (a, b) = (i.sym("x"), i.sym("x"));
    assert_eq!(a, b, "interned symbols with the same name must be equal");
    let k = i.keyword("x");
    assert_ne!(a, k, "symbol `x` must not equal keyword `:x`");

    assert_ne!(Value::Int(1), Value::Float(1.0f64.to_bits()));
    assert_eq!(Value::Int(1), Value::Int(1));

    let (forms, _) = read("##NaN").unwrap();
    assert_ne!(forms[0].root, forms[0].root, "language `=` on NaN is IEEE");

    let (list, li) = read("(1 2)").unwrap();
    let (vector, _) = read("[1 2]").unwrap();
    assert_ne!(list[0].root, vector[0].root, "list must not equal vector");
    let (same, _) = read("(1 2)").unwrap();
    assert_eq!(list[0].root, same[0].root);
    assert!(same_value(&list[0].root, &li, &same[0].root, &li));
}

#[test]
fn language_equality_crosses_list_and_vector_and_rust_equality_does_not() {
    let (list, _) = read("(1 2)").unwrap();
    let (vector, _) = read("[1 2]").unwrap();
    assert!(value::equal(&list[0].root, &vector[0].root));
    assert_ne!(list[0].root, vector[0].root);
    let (zero, _) = read("0.0").unwrap();
    let (negative, _) = read("-0.0").unwrap();
    assert!(value::equal(&zero[0].root, &negative[0].root));
    assert!(!value::same_const(&zero[0].root, &negative[0].root));
}

fn assert_spans_hold(src: &str, label: &str) {
    let (forms, _) = read(src).unwrap_or_else(|e| panic!("{label}: {e}"));
    let mut problems = Vec::new();
    for f in &forms {
        value::check_origins(&f.root, &f.origins, src, &mut problems);
    }
    assert!(
        problems.is_empty(),
        "{label}: span invariants violated:\n  {}\n--- source\n{src}",
        problems.join("\n  ")
    );
}

#[test]
fn non_ascii_forms_read_with_well_formed_spans() {
    for src in [
        "\"héllo\"",
        "(δ 1)",
        ":χ",
        "{:α \"ω\"}",
        "[é 🙂]",
        "; ω\n(a)",
    ] {
        assert_spans_hold(src, src);
    }
}

#[test]
fn every_syntactic_child_has_an_origin() {
    let (forms, _) = read("{:a [1 2] :b (c \"d\" 1.0)}").unwrap();
    fn walk(v: &Value, o: &value::Origins) {
        assert_eq!(
            o.children.len(),
            value::child_count(v),
            "{} has {} children but {} origins",
            value::kind_name(v),
            value::child_count(v),
            o.children.len()
        );
        assert!(
            matches!(o.origin, SpanOrigin::Source(_)),
            "{} came from source but its origin is {:?}",
            value::kind_name(v),
            o.origin
        );
        for (c, co) in value::children(v).iter().zip(&o.children) {
            walk(c, co);
        }
    }
    walk(&forms[0].root, &forms[0].origins);
}

#[test]
fn value_size_is_asserted_not_assumed() {
    let n = value::value_size();
    println!("Value: {n} bytes, Origins: {} bytes", value::origins_size());
    assert!(
        n <= value::VALUE_SIZE_LIMIT,
        "Value is {n} bytes against a limit of {}",
        value::VALUE_SIZE_LIMIT
    );
}

#[test]
fn reader_errors_carry_a_position() {
    for (src, want) in [
        ("(1 2", "unclosed `(`"),
        ("[1 2", "unclosed `[`"),
        ("{:a", "unclosed `{`"),
        ("{:a 1 :b}", "no value"),
        ("\"unterminated", "unclosed string"),
        (")", "unmatched `)`"),
        (":", "`:` with no name"),
    ] {
        let err = read(src).expect_err(&format!("{src:?} should not read"));
        assert!(err.contains(want), "{src:?}: expected {want:?}, got {err:?}");
        assert!(err.contains(":1:"), "{src:?}: error has no line:col — {err:?}");
    }
}

#[test]
fn unclosed_delimiter_points_at_the_opener() {
    let src = "(a\nb\nc\nd\n";
    let err = read(src).expect_err("should not read");
    assert!(err.contains(":1:1:"), "expected the opener at 1:1, got {err:?}");
}

#[test]
fn a_multibyte_escape_is_an_error_not_a_panic() {
    for src in ["\"\\€\"", "\"\\é\"", "\"a\\🙂b\""] {
        let err = read(src).expect_err(&format!("{src:?} should not read"));
        assert!(err.contains("unknown escape"), "{src:?}: expected an unknown-escape error, got {err:?}");
        assert!(err.contains(":1:"), "{src:?}: error has no line:col — {err:?}");
    }
    let err = read("\"\\€\"").unwrap_err();
    assert!(err.contains("`\\€`"), "escape misreported: {err:?}");
}

#[test]
fn a_number_that_does_not_fit_is_an_error_not_a_symbol() {
    let err = read("99999999999999999999999").expect_err("should not read");
    assert!(err.contains("number"), "got {err:?}");
}

#[test]
fn a_bad_span_is_reported_and_a_good_one_is_not() {
    let (forms, _) = read("(a b)").unwrap();
    let mut problems = Vec::new();
    value::check_origins(&forms[0].root, &forms[0].origins, "(a b)", &mut problems);
    assert!(problems.is_empty(), "{problems:?}");

    let mut short = forms[0].origins.clone();
    short.children.pop();
    value::check_origins(&forms[0].root, &short, "(a b)", &mut problems);
    assert_eq!(problems, vec!["list has 2 syntactic children but 1 origins".to_string()]);

    problems.clear();
    let outside = value::Origins::leaf(SpanOrigin::Source(apolisp::error::Span::new(0, 9)));
    value::check_origins(&Value::Nil, &outside, "(a b)", &mut problems);
    assert_eq!(problems, vec!["span 0..9 outside source of 5 bytes".to_string()]);

    problems.clear();
    let inside = value::Origins::leaf(SpanOrigin::Source(apolisp::error::Span::new(0, 1)));
    value::check_origins(&Value::Nil, &inside, "é", &mut problems);
    assert_eq!(problems, vec!["span 0..1 does not lie on character boundaries".to_string()]);
}

#[test]
fn origins_print_one_line_per_node_indented_by_depth() {
    let (forms, interner) = read("(a 1)").unwrap();
    let text = printer::print_origins(&forms[0].root, &forms[0].origins, &interner, &Host, 1);
    assert_eq!(text, "  0..5 list (a 1)\n    1..2 symbol a\n    3..4 int 1");
}

#[test]
fn a_token_that_does_not_parse_whole_is_a_symbol() {
    assert!(reader::parse_number("1abc", &Host).is_none());
    assert!(reader::parse_number("-2x", &Host).is_none());
    let mut interner = Interner::new();
    let forms = reader::read_all("1abc", &mut interner, &Host).unwrap();
    assert_eq!(forms.len(), 1);
    match &forms[0].root {
        Value::Sym(s) => assert_eq!(interner.name_or_empty(s.0), "1abc"),
        other => panic!("expected a symbol, got {other:?}"),
    }
    assert!(matches!(reader::parse_number("99999999999999999999", &Host), Some(Err(_))));
}

#[test]
fn a_string_may_hold_a_raw_line_break_and_every_escape_decodes() {
    let mut interner = Interner::new();
    let forms = reader::read_all("\"a\nb\\t\\\"c\\\\\"", &mut interner, &Host).unwrap();
    match &forms[0].root {
        Value::Str(s) => assert_eq!(s.0.as_str(), "a\nb\t\"c\\"),
        other => panic!("expected a string, got {other:?}"),
    }
    let unknown = reader::read_all("\"a\\q\"", &mut Interner::new(), &Host).unwrap_err();
    assert!(!unknown.truncated, "an unknown escape is wrong, not unfinished");
    let unclosed = reader::read_all("\"abc", &mut Interner::new(), &Host).unwrap_err();
    assert!(unclosed.truncated, "input that stops inside a string is unfinished");
}

#[test]
fn a_printed_integer_parses_back_to_itself() {
    let names = Interner::new();
    for i in [0i64, 1, -1, 42, -907, i64::MAX, i64::MIN] {
        let text = printer::print(&Value::Int(i), &names, &Host);
        match reader::parse_number(&text, &Host) {
            Some(Ok(Value::Int(j))) => assert_eq!(j, i, "{text}"),
            other => panic!("{text}: {other:?}"),
        }
    }
}

#[test]
fn no_two_fault_kinds_share_a_name() {
    let io: Vec<&str> = apolisp::host::IoKind::all().iter().map(|k| k.name()).collect();
    for (a, x) in io.iter().enumerate() {
        for y in &io[a + 1..] {
            assert_ne!(x, y);
        }
    }
    let vm: Vec<&str> = apolisp::vm::Kind::all().iter().map(|k| k.name()).collect();
    for (a, x) in vm.iter().enumerate() {
        for y in &vm[a + 1..] {
            assert_ne!(x, y);
        }
    }
}
