//! Frames, calls, closures, tail calls.

use apolisp::platform::{AdapterFn, ErrorClass, FloatOp, IoFailure, OpenMode, Platform};
use apolisp::value::Value;
use apolisp::vm::{Fault, Outcome, Vm};
use apolisp::{compile, printer, reader, vm};

/// A host with IEEE floats and no files.
struct Host;

impl Platform for Host {
    fn parse_float(&self, text: &str) -> Option<u64> {
        text.parse::<f64>().ok().map(f64::to_bits)
    }
    fn format_float(&self, bits: u64) -> String {
        f64::from_bits(bits).to_string()
    }
    fn int_to_float(&self, i: i64) -> u64 {
        (i as f64).to_bits()
    }
    fn float_op(&self, op: FloatOp, a: u64, b: u64) -> u64 {
        let (x, y) = (f64::from_bits(a), f64::from_bits(b));
        match op {
            FloatOp::Add => x + y,
            FloatOp::Sub => x - y,
            FloatOp::Mul => x * y,
            FloatOp::Div => x / y,
        }
        .to_bits()
    }
    fn open_file(&mut self, _path: &str, _mode: OpenMode) -> Result<u64, ErrorClass> {
        Err(ErrorClass::NotFound)
    }
    fn read(&mut self, _res: u64, _n: usize) -> Result<Vec<u8>, IoFailure> {
        Err(IoFailure::Os(ErrorClass::Other))
    }
    fn read_to_end(&mut self, _res: u64) -> Result<Vec<u8>, IoFailure> {
        Err(IoFailure::Os(ErrorClass::Other))
    }
    fn write(&mut self, _res: u64, _bytes: &[u8]) -> Result<(), IoFailure> {
        Err(IoFailure::Os(ErrorClass::Other))
    }
    fn close(&mut self, _res: u64) {}
    fn read_stdin(&mut self, _n: usize) -> Result<Vec<u8>, ErrorClass> {
        Ok(Vec::new())
    }
    fn read_stdin_to_end(&mut self) -> Result<Vec<u8>, ErrorClass> {
        Ok(Vec::new())
    }
    fn adapters(&self) -> Vec<AdapterFn> {
        Vec::new()
    }
    fn call_adapter(_vm: &mut Vm<Self>, _which: u32, _args: &Vec<Value>) -> Result<Value, Fault> {
        Ok(Value::Nil)
    }
}


/// What a finished program left behind: its printed value and everything it
/// emitted.
#[derive(Debug)]
struct Ran {
    value: String,
    output: String,
}

/// The high-water marks a run reached: frames deep, slots wide.
#[derive(PartialEq, Eq, Debug)]
struct Peak {
    frames: usize,
    slots: usize,
}

fn run(src: &str) -> Result<Ran, String> {
    Ok(run_traced(src)?.0)
}

/// Run a program; a throw comes back as its printed value and the position
/// it was raised at.
fn run_traced(src: &str) -> Result<(Ran, Peak), String> {
    let mut machine = Vm::new(Host);
    let forms = reader::read_all(src, &mut machine.interner, &machine.platform)
        .map_err(|e| e.render("<test>", src))
        .expect("the test source reads");
    let chunk = compile::compile(&forms, &mut machine.interner)
        .map_err(|e| e.render("<test>", src))
        .expect("the test source compiles");
    match vm::run_traced(&mut machine, &chunk) {
        (Outcome::Returned(v), (frames, slots)) => Ok((
            Ran {
                value: printer::print(&v, &machine.interner, &machine.platform),
                output: machine.take_output(),
            },
            Peak { frames, slots },
        )),
        (Outcome::Threw(u), _) => Err(format!(
            "threw {} at {}",
            printer::print(&u.value, &machine.interner, &machine.platform),
            u.position("<test>", src).unwrap_or_default()
        )),
        (Outcome::Suspended, _) => Err("suspended".to_string()),
    }
}

fn value_of(src: &str) -> String {
    run(src).unwrap_or_else(|e| panic!("{src:?}: {e}")).value
}

#[test]
fn a_tail_loop_runs_in_constant_space() {
    let program = |n: i64| {
        format!("(set-global! down (fn down [i] (if (< i {n}) (down (+ i 1)) i)))\n(down 0)")
    };
    let (short, small) = run_traced(&program(10)).unwrap();
    let (long, big) = run_traced(&program(100_000)).unwrap();

    assert_eq!(short.value, "10");
    assert_eq!(long.value, "100000");
    assert_eq!(
        small, big,
        "ten iterations peaked at {small:?} and a hundred thousand at {big:?}"
    );
}

#[test]
fn non_tail_recursion_grows_the_frame_stack() {
    let program = |n: i64| {
        format!("(set-global! sum (fn sum [n] (if (< n 1) 0 (+ n (sum (- n 1))))))\n(sum {n})")
    };
    let (ten, shallow) = run_traced(&program(10)).unwrap();
    let (fifty, deep) = run_traced(&program(50)).unwrap();

    assert_eq!(ten.value, "55");
    assert_eq!(fifty.value, "1275");
    assert!(
        deep.frames > shallow.frames,
        "50 levels peaked at {} frames and 10 at {}",
        deep.frames,
        shallow.frames
    );
}

#[test]
fn a_closure_copies_its_captures_at_creation() {
    assert_eq!(value_of("(((fn [by] (fn [x] (+ x by))) 40) 2)"), "42");
    assert_eq!(
        value_of("(set-global! add (fn [by] (fn [x] (+ x by))))\n(+ ((add 1) 10) ((add 2) 10))"),
        "23"
    );
    assert_eq!(value_of("((((fn [a] (fn [] (fn [] a))) 7)))"), "7");
}

#[test]
fn self_recursion_resolves_through_identity() {
    assert_eq!(value_of("((fn f [n] (if (< n 1) 0 (+ 1 (f (- n 1))))) 5)"), "5");
}

#[test]
fn arity_is_checked_in_the_callee_at_call_time() {
    for (src, want) in [
        ("((fn [a] a))", "takes 1 argument(s), given 0"),
        ("((fn [a] a) 1 2)", "takes 1 argument(s), given 2"),
        ("((fn [a & b] a))", "takes at least 1 argument(s), given 0"),
        ("(+ 1 nil)", "needs an integer"),
        ("(1 2)", "cannot call a int"),
    ] {
        let err = run(src).expect_err(&format!("{src:?} should fault"));
        assert!(err.contains(want), "{src:?}: expected {want:?}, got {err:?}");
    }
}

#[test]
fn a_rest_parameter_is_an_empty_list_never_nil() {
    assert_eq!(value_of("((fn [a & rest] rest) 1)"), "()");
    assert_eq!(value_of("((fn [a & rest] rest) 1 2 3)"), "(2 3)");
    assert_eq!(value_of("((fn [& rest] rest))"), "()");
    assert_eq!(value_of("((fn [a & rest] (if rest 1 2)) 9)"), "1");
}

#[test]
fn a_variadic_frame_fits_more_arguments_than_the_callee_has_slots() {
    let args: Vec<String> = (1..=60).map(|i| i.to_string()).collect();
    let src = format!("((fn [& xs] xs) {})", args.join(" "));
    assert_eq!(value_of(&src), format!("({})", args.join(" ")));
}

#[test]
fn integer_overflow_throws_rather_than_wrapping() {
    let err = run("(* 9223372036854775807 2)").expect_err("should fault");
    assert!(err.contains("overflowed"), "got {err:?}");

    let err = run("(+ 9223372036854775807 1)").expect_err("should fault");
    assert!(err.contains("overflowed"), "got {err:?}");

    assert_eq!(value_of("(- 9223372036854775807 1)"), "9223372036854775806");
}

#[test]
fn only_nil_and_false_are_falsy() {
    for (src, want) in [
        ("(if nil 1 2)", "2"),
        ("(if false 1 2)", "2"),
        ("(if true 1 2)", "1"),
        ("(if 0 1 2)", "1"),
        ("(if \"\" 1 2)", "1"),
        ("(if (list) 1 2)", "1"),
        ("(if nil 1)", "nil"),
    ] {
        assert_eq!(value_of(src), want, "{src}");
    }
}

#[test]
fn a_global_is_a_cell_that_rebinding_writes_through() {
    assert_eq!(
        value_of("(set-global! x 1)\n(set-global! read-x (fn [] x))\n(set-global! x 2)\n(read-x)"),
        "2"
    );
    assert_eq!(value_of("(set-global! y 5)"), "5");
}

#[test]
fn an_unbound_global_faults_where_it_was_used() {
    let err = run("(no-such-thing)").expect_err("should fault");
    assert!(err.contains("`no-such-thing` is not bound"), "got {err:?}");
    assert!(err.contains(":1:"), "the fault carries a position — {err:?}");
}

#[test]
fn a_program_evaluates_to_its_last_form() {
    assert_eq!(value_of("1 2 3"), "3");
    assert_eq!(value_of(""), "nil");
    assert_eq!(value_of("; only a comment\n"), "nil");
}

#[test]
fn println_displays_strings_without_their_quotes() {
    let ran = run("(println \"a b\") (println 1 :k) (println [\"a\" \"b\"])").unwrap();
    assert_eq!(ran.value, "nil");
    assert_eq!(ran.output, "a b\n1 :k\n[\"a\" \"b\"]\n");
}

#[test]
fn try_runs_its_finally_and_a_catch_binds_the_thrown_value() {
    let ran = run("(try (throw :boom) (catch e e) (finally (println :cleanup)))").unwrap();
    assert_eq!(ran.value, ":boom");
    assert_eq!(ran.output, ":cleanup\n");
}

#[test]
fn float_arithmetic_follows_the_host() {
    assert_eq!(value_of("(+ 1 2.5)"), "3.5");
    assert_eq!(value_of("(/ 1.0 0.0)"), "##Inf");
}

#[test]
fn a_fault_is_a_map_of_its_type_kind_and_message() {
    assert_eq!(value_of("(count (try (no-such) (catch e e)))"), "3");
    assert_eq!(value_of("(get (try (no-such) (catch e e)) :type)"), ":vm-error");
    assert_eq!(value_of("(get (try (no-such) (catch e e)) :kind)"), ":unbound");
    assert_eq!(value_of("(get (try (no-such) (catch e e)) :message)"), "\"`no-such` is not bound\"");
}

#[test]
fn each_fault_names_the_kind_of_what_went_wrong() {
    for (src, want) in [
        ("(no-such)", ":unbound"),
        ("(1 2)", ":not-callable"),
        ("((fn [a] a))", ":arity"),
        ("(count 1 2)", ":arity"),
        ("(set-cell! 1 2)", ":type"),
        ("(+ 9223372036854775807 1)", ":overflow"),
        ("(quot 1 0)", ":divide-by-zero"),
    ] {
        let program = format!("(try {src} (catch e (get e :kind)))");
        assert_eq!(value_of(&program), want, "{src}");
    }
}

#[test]
fn a_fresh_vm_binds_every_primitive_under_its_name() {
    let machine = Vm::new(Host);
    let n = apolisp::prim::PRIM_COUNT;
    assert!(machine.natives.len() >= n);
    let names: Vec<&str> = machine.natives[..n].iter().map(|x| machine.interner.name_or_empty(x.name.0)).collect();
    assert_eq!(names[0], "+");
    assert_eq!(names[n - 1], "hash-map");
    for want in ["count", "str-slice", "cell-get", "println", "concat"] {
        assert!(names.contains(&want), "{want} is not registered");
    }
    assert_eq!(value_of("(count [1 2 3])"), "3");
}

#[test]
fn collection_primitives_build_what_they_say() {
    for (src, want) in [
        ("(conj (list 1 2) 3 4)", "(4 3 1 2)"),
        ("(conj nil 1 2)", "(2 1)"),
        ("(conj [1 2] 3 4)", "[1 2 3 4]"),
        ("(conj {:a 1} [:b 2] [:a 3])", "{:a 3 :b 2}"),
        ("(assoc {:a 1} :b 2 :a 3)", "{:a 3 :b 2}"),
        ("(assoc nil :k 1)", "{:k 1}"),
        ("(assoc [1 2 3] 0 :x 2 :y)", "[:x 2 :y]"),
        ("(dissoc {:a 1 :b 2 :c 3} :b :z)", "{:a 1 :c 3}"),
        ("(dissoc nil :a)", "nil"),
        ("(concat (list 1) [2 3] nil (list 4))", "(1 2 3 4)"),
        ("(hash-map :a 1 :b 2 :a 3)", "{:a 3 :b 2}"),
        ("(str-scalars \"ab\")", "[97 98]"),
    ] {
        assert_eq!(value_of(src), want, "{src}");
    }
    for (src, want) in [
        ("(conj {:a 1} [:b])", "key/value pair"),
        ("(assoc [1 2] 5 :x)", "`assoc` index 5 of 2"),
        ("(assoc {:a 1} :b 2 :c)", "needs a value for every key"),
        ("(concat (list 1) 2)", "`concat` needs lists or vectors"),
        ("(hash-map :a)", "needs a value for every key"),
    ] {
        let err = run(src).expect_err(&format!("{src:?} should fault"));
        assert!(err.contains(want), "{src:?}: expected {want:?}, got {err:?}");
    }
}

#[test]
fn a_closed_slot_is_reused_under_a_new_generation_and_the_old_id_is_stale() {
    let mut machine = Vm::new(Host);
    let open = machine.open_handles();
    let h = machine.open_handle(apolisp::host::Host::Resource(3));
    assert_eq!(machine.open_handles(), open + 1);
    assert!(machine.close_handle(h));
    assert_eq!(machine.open_handles(), open);
    let again = machine.open_handle(apolisp::host::Host::Resource(4));
    assert_eq!(again.0, h.0, "the freed slot is taken before the table grows");
    assert_ne!(again.1, h.1, "under a bumped generation");
    assert!(!machine.close_handle(h), "a stale id is refused");
    assert!(machine.host(again).is_some(), "and closes nothing");
    assert!(machine.close_handle(again));
    assert!(machine.close_handle(again), "closing the current id twice is fine");
}

#[test]
fn a_fresh_vm_has_stdin_and_stdout_open_in_its_first_two_slots() {
    let machine = Vm::new(Host);
    assert_eq!(machine.open_handles(), 2);
    assert_eq!(machine.handles.generations(), vec![0, 0]);
    assert!(machine.handles.free_list().is_empty());
    assert!(matches!(
        machine.host(apolisp::value::HandleId(0, 0)),
        Some(apolisp::host::Host::Stdin)
    ));
    assert!(matches!(
        machine.host(apolisp::value::HandleId(1, 0)),
        Some(apolisp::host::Host::Stdout)
    ));
}

#[test]
fn closing_a_live_handle_puts_its_slot_on_the_free_list() {
    let mut machine = Vm::new(Host);
    let h = machine.open_handle(apolisp::host::Host::Resource(9));
    assert!(machine.close_handle(h));
    assert_eq!(machine.handles.free_list(), vec![h.0]);
    assert!(machine.close_handle(h), "already closed: the free list is left alone");
    assert_eq!(machine.handles.free_list(), vec![h.0]);
}

#[test]
fn string_primitives_give_what_their_contracts_say() {
    assert_eq!(value_of("(str-len \"héllo\")"), "6");
    assert_eq!(value_of("(str-len \"\")"), "0");
    assert_eq!(value_of("(str \"a\" 1 :k nil)"), "\"a1:knil\"");
    assert_eq!(value_of("(str)"), "\"\"");
    assert_eq!(value_of("(parse-number \"42\")"), "42");
    assert_eq!(value_of("(parse-number \"-7\")"), "-7");
    assert_eq!(value_of("(parse-number \"1abc\")"), "nil");
    assert_eq!(value_of("(parse-number \"hello\")"), "nil");
    assert_eq!(value_of("(bytes-len (str-bytes \"é\"))"), "2");
    assert_eq!(value_of("(bytes-str (str-bytes \"héllo\"))"), "\"héllo\"");
    assert_eq!(value_of("(scalars-str [104 105])"), "\"hi\"");
    assert_eq!(value_of("(str-slice \"hello\" 1 3)"), "\"el\"");
    assert!(run("(parse-number \"99999999999999999999\")").is_err());
    assert!(run("(str-len 5)").is_err());
    assert!(run("(str-slice \"é\" 0 1)").is_err(), "a cut inside a character is refused");
}

#[test]
fn println_separates_its_arguments_with_spaces_and_ends_the_line() {
    let ran = run("(println \"a\" 1 :k) (println)").expect("runs");
    assert_eq!(ran.output, "a 1 :k\n\n");
}

#[test]
fn gensym_names_a_fresh_symbol_after_its_prefix() {
    let v = value_of("(gensym \"tmp\")");
    assert!(v.starts_with("tmp__"), "{v}");
    let w = value_of("(gensym)");
    assert!(w.starts_with("G__"), "{w}");
    assert!(run("(gensym 5)").is_err());
}
