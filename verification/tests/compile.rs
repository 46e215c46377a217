//! The instruction set and the slot compiler: the decisions a disassembly
//! alone cannot show.

use apolisp::bytecode::{self, CaptureSrc, Chunk, Instr, Proto};
use apolisp::error::SpanOrigin;
use apolisp::platform::{AdapterFn, ErrorClass, FloatOp, IoFailure, OpenMode, Platform};
use apolisp::value::{Interner, Value};
use apolisp::vm::{Fault, Vm};
use apolisp::{compile, error, reader};

/// A host with IEEE floats and no files.
struct Host;

impl Platform for Host {
    fn parse_float(&self, text: &str) -> Option<u64> {
        text.parse::<f64>().ok().map(f64::to_bits)
    }
    fn format_float(&self, bits: u64) -> String {
        f64::from_bits(bits).to_string()
    }
    fn int_to_float(&self, i: i64) -> u64 {
        (i as f64).to_bits()
    }
    fn float_op(&self, op: FloatOp, a: u64, b: u64) -> u64 {
        let (x, y) = (f64::from_bits(a), f64::from_bits(b));
        match op {
            FloatOp::Add => x + y,
            FloatOp::Sub => x - y,
            FloatOp::Mul => x * y,
            FloatOp::Div => x / y,
        }
        .to_bits()
    }
    fn open_file(&mut self, _path: &str, _mode: OpenMode) -> Result<u64, ErrorClass> {
        Err(ErrorClass::NotFound)
    }
    fn read(&mut self, _res: u64, _n: usize) -> Result<Vec<u8>, IoFailure> {
        Err(IoFailure::Os(ErrorClass::Other))
    }
    fn read_to_end(&mut self, _res: u64) -> Result<Vec<u8>, IoFailure> {
        Err(IoFailure::Os(ErrorClass::Other))
    }
    fn write(&mut self, _res: u64, _bytes: &[u8]) -> Result<(), IoFailure> {
        Err(IoFailure::Os(ErrorClass::Other))
    }
    fn close(&mut self, _res: u64) {}
    fn read_stdin(&mut self, _n: usize) -> Result<Vec<u8>, ErrorClass> {
        Ok(Vec::new())
    }
    fn read_stdin_to_end(&mut self) -> Result<Vec<u8>, ErrorClass> {
        Ok(Vec::new())
    }
    fn adapters(&self) -> Vec<AdapterFn> {
        Vec::new()
    }
    fn call_adapter(_vm: &mut Vm<Self>, _which: u32, _args: &Vec<Value>) -> Result<Value, Fault> {
        Ok(Value::Nil)
    }
}


fn compile_ok(src: &str) -> (Chunk, Interner) {
    let mut interner = Interner::new();
    let forms = reader::read_all(src, &mut interner, &Host)
        .unwrap_or_else(|e| panic!("{src:?}: {}", e.render("<test>", src)));
    let chunk = compile::compile(&forms, &mut interner)
        .unwrap_or_else(|e| panic!("{src:?}: {}", e.render("<test>", src)));
    (chunk, interner)
}

fn compile_err(src: &str) -> String {
    let mut interner = Interner::new();
    let forms = match reader::read_all(src, &mut interner, &Host) {
        Ok(forms) => forms,
        Err(e) => return e.render("<test>", src),
    };
    match compile::compile(&forms, &mut interner) {
        Ok(_) => panic!("{src:?} should not compile"),
        Err(e) => e.render("<test>", src),
    }
}

/// The slot a constant's value lands in.
fn slot_holding(p: &Proto, want: &Value) -> u32 {
    let k = p
        .consts
        .iter()
        .position(|c| c == want)
        .unwrap_or_else(|| panic!("no constant equal to {want:?} in {:?}", p.consts))
        as u32;
    p.code
        .iter()
        .find_map(|i| match *i {
            Instr::Const { dst, k: got } if got == k => Some(dst),
            _ => None,
        })
        .expect("the constant is loaded somewhere")
}

fn count(p: &Proto, f: impl Fn(&Instr) -> bool) -> usize {
    p.code.iter().filter(|i| f(i)).count()
}

fn is_tail_call(i: &Instr) -> bool {
    matches!(i, Instr::TailCall { .. })
}

fn is_call(i: &Instr) -> bool {
    matches!(i, Instr::Call { .. })
}

#[test]
fn instruction_origins_track_subexpressions_not_the_enclosing_form() {
    let src = "(f\n  1\n  2)\n";
    let (chunk, interner) = compile_ok(src);
    let top = &chunk.protos[0];
    let lines: Vec<usize> = top
        .lines
        .iter()
        .map(|o| match o.span() {
            Some(s) => error::line_col(src, s.start as usize).0,
            None => 0,
        })
        .collect();
    assert_eq!(
        lines,
        vec![1, 2, 3, 1, 1],
        "origins were {lines:?} for\n{src}\ndisassembly:\n{}",
        bytecode::disassemble(&chunk, &interner, src, &Host)
    );
}

#[test]
fn nesting_past_the_bound_is_a_diagnostic_not_a_crash() {
    let nest = |n: usize| format!("{}1{}", "(f ".repeat(n), ")".repeat(n));
    let (chunk, _) = compile_ok(&nest(reader::MAX_NESTING - 2));
    assert!(!chunk.protos[0].code.is_empty());

    let err = compile_err(&nest(reader::MAX_NESTING + 8));
    assert!(err.contains("nested more than"), "got {err:?}");
    assert!(err.contains(":1:"), "the bound reports a position — {err:?}");
}

#[test]
fn a_file_with_no_forms_compiles_to_nil_with_no_position() {
    let (chunk, _) = compile_ok("; nothing but a comment\n");
    let p = &chunk.protos[0];
    assert_eq!(p.code.len(), 2, "CONST nil, RETURN");
    assert!(
        p.lines.iter().all(|o| matches!(o, SpanOrigin::Unknown)),
        "there is no source text here: {:?}",
        p.lines
    );
}

#[test]
fn instr_size_is_asserted_not_assumed() {
    let n = bytecode::instr_size();
    println!("Instr: {n} bytes");
    assert!(
        n <= bytecode::INSTR_SIZE_LIMIT,
        "Instr is {n} bytes against a limit of {}",
        bytecode::INSTR_SIZE_LIMIT
    );
}

#[test]
fn a_handler_region_suppresses_tail_calls_and_closing_it_restores_them() {
    let (plain, _) = compile_ok("(fn [] (g))");
    assert_eq!(count(&plain.protos[1], is_tail_call), 1, "plain tail call");

    let (fin, _) = compile_ok("(fn [] (try (g) (finally (h))))");
    assert_eq!(count(&fin.protos[1], is_tail_call), 0, "a pending `finally` keeps the frame");

    let (cat, _) = compile_ok("(fn [] (try (g) (catch e (h))))");
    assert_eq!(count(&cat.protos[1], is_call), 1, "the protected body's call is ordinary");
    assert_eq!(
        count(&cat.protos[1], is_tail_call),
        1,
        "the handler runs with the record already popped, so its tail call stands"
    );
}

#[test]
fn tail_position_is_the_last_expression_and_never_the_operator() {
    for src in [
        "(fn [] (g))",
        "(fn [] (do (a) (g)))",
        "(fn [] (let [x 1] (g)))",
        "(fn [] (try (g)))",
    ] {
        let (chunk, _) = compile_ok(src);
        assert_eq!(count(&chunk.protos[1], is_tail_call), 1, "{src}: the last expression is in tail position");
    }

    let (chunk, _) = compile_ok("(fn [] (if a (g) (h)))");
    assert_eq!(count(&chunk.protos[1], is_tail_call), 2);

    let (chunk, _) = compile_ok("(fn [] ((f) 1))");
    let p = &chunk.protos[1];
    assert_eq!(count(p, is_call), 1, "the computed callee is an ordinary call");
    assert_eq!(count(p, is_tail_call), 1, "the outer call is the tail one");
    let call_at = p.code.iter().position(is_call).unwrap();
    let tail_at = p.code.iter().position(is_tail_call).unwrap();
    assert!(call_at < tail_at, "the callee is computed before it is called");
}

#[test]
fn try_emits_one_pop_per_push_and_two_copies_of_finally() {
    let (chunk, _) = compile_ok("(fn [] (try (g) (catch e (h)) (finally (cleanup))))");
    let p = &chunk.protos[1];
    let pushes = count(p, |i| matches!(i, Instr::PushHandler { .. } | Instr::PushFinally { .. }));
    let pops = count(p, |i| matches!(i, Instr::PopHandler));
    assert_eq!(pushes, 2, "a catch region inside a finally region");
    assert_eq!(pops, 2, "one POPHANDLER per region on the untroubled path");
    assert_eq!(count(p, |i| matches!(i, Instr::EndFinally)), 1, "one unwinding exit");
    let fetches = count(p, |i| matches!(i, Instr::GetGlobal { .. }));
    assert_eq!(fetches, 4, "g, h, and cleanup twice; got {fetches}");
}

#[test]
fn self_recursion_is_identity_not_capture() {
    let (chunk, _) = compile_ok("(fn f [n] (f n))");
    let p = &chunk.protos[1];
    assert!(p.captures.is_empty(), "a self-recursive fn captured {:?}", p.captures);
    assert_eq!(count(p, |i| matches!(i, Instr::GetSelf { .. })), 1);

    let (chunk, _) = compile_ok("(fn f [] (fn [] (f)))");
    assert_eq!(chunk.protos[2].captures, vec![CaptureSrc::SelfFn]);
}

#[test]
fn captures_chain_through_every_level_they_cross() {
    let (chunk, _) = compile_ok("(fn [a] (fn [] (fn [] a)))");
    assert!(chunk.protos[1].captures.is_empty(), "`a` is a parameter here");
    assert_eq!(chunk.protos[2].captures, vec![CaptureSrc::Local(0)]);
    assert_eq!(chunk.protos[3].captures, vec![CaptureSrc::Capture(0)]);

    let (chunk, _) = compile_ok("(fn [a] (fn [] (list a a)))");
    assert_eq!(chunk.protos[2].captures.len(), 1);
}

#[test]
fn let_bindings_are_sequential_not_recursive() {
    let (chunk, i) = compile_ok("(let [x x] x)");
    let p = &chunk.protos[0];
    assert!(
        p.code.iter().any(|ins| matches!(
            ins, Instr::GetGlobal { name, .. } if i.name(name.0) == "x"
        )),
        "the initializer's `x` is the outer binding, not the one being bound"
    );

    let (chunk, _) = compile_ok("(let [a 1 b a] b)");
    let p = &chunk.protos[0];
    assert_eq!(count(p, |ins| matches!(ins, Instr::Move { .. })), 2, "`b` copies `a`, and the body copies `b`");
}

#[test]
fn the_innermost_and_latest_binding_wins() {
    for src in ["(let [x 1] (let [x 2] x))", "(let [x 1 x 2] x)"] {
        let (chunk, _) = compile_ok(src);
        let p = &chunk.protos[0];
        let shadowing = slot_holding(p, &Value::Int(2));
        let read = p
            .code
            .iter()
            .rev()
            .find_map(|ins| match *ins {
                Instr::Move { src, .. } => Some(src),
                _ => None,
            })
            .expect("the body copies the binding it read");
        assert_eq!(read, shadowing, "{src}: read the wrong `x`");
    }
}

#[test]
fn a_parameter_shadows_the_functions_own_name() {
    let (chunk, _) = compile_ok("(fn f [f] f)");
    assert_eq!(count(&chunk.protos[1], |i| matches!(i, Instr::GetSelf { .. })), 0);

    let (chunk, _) = compile_ok("(fn f [n] f)");
    assert_eq!(count(&chunk.protos[1], |i| matches!(i, Instr::GetSelf { .. })), 1);
}

#[test]
fn a_parameter_list_ends_in_at_most_one_rest_parameter() {
    let (chunk, _) = compile_ok("(fn [a b] a)");
    assert_eq!((chunk.protos[1].params, chunk.protos[1].variadic), (2, false));

    let (chunk, _) = compile_ok("(fn [a b & more] more)");
    assert_eq!((chunk.protos[1].params, chunk.protos[1].variadic), (3, true));

    let (chunk, _) = compile_ok("(fn [& more] more)");
    assert_eq!((chunk.protos[1].params, chunk.protos[1].variadic), (1, true));

    for bad in ["(fn [a &] a)", "(fn [& a b] a)", "(fn [& & a] a)", "(fn [& &] a)"] {
        let err = compile_err(bad);
        assert!(err.contains("rest parameter"), "{bad}: {err}");
    }
}

#[test]
fn arguments_evaluate_left_to_right_after_the_operator() {
    let (chunk, i) = compile_ok("(f (a) (b))");
    let names: Vec<&str> = chunk.protos[0]
        .code
        .iter()
        .filter_map(|ins| match ins {
            Instr::GetGlobal { name, .. } => Some(i.name(name.0)),
            _ => None,
        })
        .collect();
    assert_eq!(names, vec!["f", "a", "b"]);
}

#[test]
fn a_call_window_is_contiguous_with_the_callee_first() {
    let (chunk, _) = compile_ok("(f 1 2 3)");
    let call = chunk.protos[0]
        .code
        .iter()
        .find(|i| is_call(i) || is_tail_call(i))
        .expect("a call");
    let (base, argc) = match *call {
        Instr::Call { base, argc, .. } | Instr::TailCall { base, argc } => (base, argc),
        _ => unreachable!(),
    };
    assert_eq!(argc, 3);
    let writes: Vec<u32> = chunk.protos[0]
        .code
        .iter()
        .filter_map(|i| match *i {
            Instr::GetGlobal { dst, .. } | Instr::Const { dst, .. } => Some(dst),
            _ => None,
        })
        .collect();
    assert_eq!(writes, vec![base, base + 1, base + 2, base + 3]);
}

#[test]
fn a_collection_literal_in_code_position_is_a_call() {
    let (chunk, i) = compile_ok("[1 (f)]");
    let names: Vec<&str> = chunk.protos[0]
        .code
        .iter()
        .filter_map(|ins| match ins {
            Instr::GetGlobal { name, .. } => Some(i.name(name.0)),
            _ => None,
        })
        .collect();
    assert_eq!(names, vec!["vector", "f"]);

    let (chunk, i) = compile_ok("{:a 1}");
    assert!(chunk.protos[0].code.iter().any(|ins| matches!(
        ins,
        Instr::GetGlobal { name, .. } if i.name(name.0) == "hash-map"
    )));

    let (chunk, i) = compile_ok("(let [vector 1] [2])");
    assert!(chunk.protos[0].code.iter().any(|ins| matches!(
        ins,
        Instr::GetGlobal { name, .. } if i.name(name.0) == "vector"
    )));

    let (chunk, _) = compile_ok("()");
    assert_eq!(count(&chunk.protos[0], is_call), 0);
    assert_eq!(count(&chunk.protos[0], is_tail_call), 0);
}

#[test]
fn malformed_core_forms_are_errors_with_a_position() {
    for (src, want) in [
        ("(if)", "`if` takes a test"),
        ("(if a b c d)", "`if` takes a test"),
        ("(let 1 2)", "binding vector"),
        ("(let [a] a)", "name with no value"),
        ("(let [1 2] 3)", "binds symbols"),
        ("(fn)", "parameter vector"),
        ("(fn 1 2)", "parameter vector"),
        ("(fn [1] 2)", "parameters are symbols"),
        ("(quote a b)", "`quote` takes exactly one form"),
        ("(set-cell! a)", "`set-cell!` takes a cell and a value"),
        ("(set-global! 1 2)", "binds a symbol"),
        ("(set-global! a)", "takes a name and a value"),
        ("(throw)", "`throw` takes exactly one value"),
        ("(catch e 1)", "only valid inside `try`"),
        ("(finally 1)", "only valid inside `try`"),
        ("(try a (catch e 1) (catch f 2))", "at most one `catch`"),
        ("(try a (finally 1) (catch e 2))", "must be the last clause"),
        ("(try a (catch) 1)", "binds the thrown value"),
        ("(try a (finally 1) 2)", "must be one too"),
    ] {
        let err = compile_err(src);
        assert!(err.contains(want), "{src:?}: expected {want:?}, got {err:?}");
        assert!(err.contains(":1:"), "{src:?}: error has no line:col — {err:?}");
    }
}

#[test]
fn a_core_form_cannot_be_shadowed_by_a_local() {
    let (chunk, _) = compile_ok("(let [if 1] (if true 2 3))");
    assert_eq!(count(&chunk.protos[0], |i| matches!(i, Instr::JumpUnless { .. })), 1);
}

#[test]
fn recur_is_refused_everywhere_it_would_not_be_a_tail_call() {
    let e = compile_err("(recur 1)");
    assert!(e.contains("only valid inside `loop`"), "got {e:?}");

    let e = compile_err("(loop [i 0] ((fn [] (recur 1))))");
    assert!(e.contains("only valid inside `loop`"), "got {e:?}");

    let e = compile_err("(loop [i 0] (recur 1 2))");
    assert!(e.contains("rebinds the 1 name(s)"), "got {e:?}");

    let e = compile_err("(loop [i 0] (+ 1 (recur (+ i 1))))");
    assert!(e.contains("must be in tail position"), "got {e:?}");

    let e = compile_err("(loop [i 0] (try (recur (+ i 1)) (finally nil)))");
    assert!(e.contains("cannot cross a `try`"), "got {e:?}");

    let e = compile_err("(loop [i 0] (try 1 (finally (recur 2))))");
    assert!(e.contains("must be in tail position"), "got {e:?}");
}

#[test]
fn recur_lowers_to_a_tail_call_even_where_the_loop_is_not_in_tail_position() {
    let (chunk, _) = compile_ok("(fn [] (+ 1 (loop [i 0] (if (= i 5) i (recur (+ i 1))))))");
    let loop_proto = chunk
        .protos
        .iter()
        .find(|p| p.code.iter().filter(|i| is_tail_call(i)).count() == 1)
        .expect("the loop's own proto emits exactly one tail call");
    assert_eq!(count(loop_proto, is_tail_call), 1, "the recur is the tail call");
}

#[test]
fn a_refused_recur_leaves_the_chunk_untouched() {
    let mut interner = Interner::new();
    let mut chunk = Chunk { protos: Vec::new() };

    let good = reader::read_all("(fn [] 1)", &mut interner, &Host).unwrap();
    compile::compile_into(&mut chunk, &good, &mut interner).unwrap();
    let before = chunk.protos.len();

    let bad = reader::read_all("(loop [i 0] (+ 1 (recur (+ i 1))))", &mut interner, &Host).unwrap();
    compile::compile_into(&mut chunk, &bad, &mut interner).expect_err("a non-tail recur should not compile");

    assert_eq!(chunk.protos.len(), before, "a refused compile appended protos to the chunk");
}

#[test]
fn a_disassembly_names_each_instruction_and_its_line() {
    let src = "(f 1)";
    let (chunk, interner) = compile_ok(src);
    let text = bytecode::disassemble(&chunk, &interner, src, &Host);
    assert!(text.contains("GETGLOBAL"), "{text}");
    assert!(text.contains("TAILCALL"), "{text}");
    assert!(text.contains("RETURN"), "{text}");
}

/// Every slot an instruction reads or writes, a call's whole argument window
/// included.
fn slots_of(i: &Instr) -> Vec<u32> {
    match *i {
        Instr::Const { dst, .. }
        | Instr::GetCapture { dst, .. }
        | Instr::GetSelf { dst }
        | Instr::GetGlobal { dst, .. }
        | Instr::Closure { dst, .. } => vec![dst],
        Instr::Move { dst, src } | Instr::SetCell { cell: dst, src } => vec![dst, src],
        Instr::SetGlobal { src, .. } | Instr::Return { src } | Instr::Throw { src } => vec![src],
        Instr::Call { dst, base, argc } => {
            let mut v = vec![dst, base];
            v.extend(base..=base + argc);
            v
        }
        Instr::TailCall { base, argc } => (base..=base + argc).collect(),
        Instr::JumpUnless { cond, .. } => vec![cond],
        Instr::PushHandler { err, .. } => vec![err],
        Instr::Jump { .. } | Instr::PushFinally { .. } | Instr::PopHandler | Instr::EndFinally => Vec::new(),
    }
}

#[test]
fn compiled_slot_operands_stay_inside_the_frame() {
    for src in [
        "(f 1 2 3)",
        "(let [a 1 b (+ a 1)] (if (< a b) (g a b) (h)))",
        "(fn f [n & more] (if (< n 1) more (f (- n 1) n)))",
        "(loop [i 0 acc 1] (if (< i 5) (recur (+ i 1) (* acc 2)) acc))",
        "(try (risky 1) (catch e (report e)) (finally (cleanup 1 2)))",
        "(fn [x] (fn [y] (fn [z] (+ x y z))))",
        "(set-global! g (fn [] (set-cell! c 1)))",
        "[1 (f 2) {:k (g 3)}]",
    ] {
        let (chunk, _) = compile_ok(src);
        for (i, p) in chunk.protos.iter().enumerate() {
            assert_eq!(p.code.len(), p.lines.len(), "{src}: proto {i}");
            for (pc, ins) in p.code.iter().enumerate() {
                for s in slots_of(ins) {
                    assert!(s < p.slots, "{src}: proto {i} pc {pc} names r{s} in a frame of {} slots", p.slots);
                }
            }
        }
    }
}

#[test]
fn compiled_jumps_land_inside_their_function() {
    for src in [
        "(if a (if b 1 2) (if c 3 4))",
        "(loop [i 0] (if (< i 3) (recur (+ i 1)) i))",
        "(try (f) (catch e (g e)) (finally (h)))",
        "(fn [x] (try (if x (f x) (g)) (finally (h))))",
    ] {
        let (chunk, _) = compile_ok(src);
        for (i, p) in chunk.protos.iter().enumerate() {
            for (pc, ins) in p.code.iter().enumerate() {
                let target = match *ins {
                    Instr::Jump { target }
                    | Instr::JumpUnless { target, .. }
                    | Instr::PushFinally { target } => Some(target),
                    Instr::PushHandler { catch, .. } => Some(catch),
                    _ => None,
                };
                if let Some(t) = target {
                    assert!((t as usize) < p.code.len(), "{src}: proto {i} pc {pc} jumps to {t} of {}", p.code.len());
                }
            }
        }
    }
}

/// One line of a disassembly's code section.
fn listing_line(pc: usize, mnemonic: &str, operands: &str, pos: &str) -> String {
    format!("    {:04}  {:<11} {:<22} {}\n", pc, mnemonic, operands, pos)
}

#[test]
fn a_disassembly_spells_header_constants_and_code_exactly() {
    let src = "(f 1)";
    let (chunk, interner) = compile_ok(src);
    let text = bytecode::disassemble(&chunk, &interner, src, &Host);
    let mut want = String::from("proto 0  <top>  params 0  slots 3\n  constants\n    k0  1\n  code\n");
    want.push_str(&listing_line(0, "GETGLOBAL", "r1 <- f", "1:2"));
    want.push_str(&listing_line(1, "CONST", "r2 <- k0", "1:4"));
    want.push_str(&listing_line(2, "TAILCALL", "r1(1)", "1:1"));
    want.push_str(&listing_line(3, "RETURN", "r0", "1:1"));
    assert_eq!(text, want);
}

#[test]
fn a_disassembly_separates_protos_and_names_captures() {
    let src = "(fn [x] (fn [] x))";
    let (chunk, interner) = compile_ok(src);
    let text = bytecode::disassemble(&chunk, &interner, src, &Host);
    assert!(text.contains("\n\nproto 1  <fn>  params 1  slots "), "{text}");
    assert!(text.contains("proto 2  <fn>  params 0  slots "), "{text}");
    assert!(text.contains("  captures\n    c0  local r0\n"), "{text}");
    assert!(text.contains("GETCAP"), "{text}");
}

#[test]
fn an_if_tests_then_jumps_over_the_then_branch_to_the_else_branch() {
    let (chunk, _) = compile_ok("(fn [c] (if c 10 20))");
    let p = &chunk.protos[1];
    let at = p.code.iter().position(|i| matches!(i, Instr::JumpUnless { .. })).expect("a conditional jump");
    let (then_k, else_k) = match (&p.code[at + 1], &p.code[at + 3]) {
        (Instr::Const { k: a, .. }, Instr::Const { k: b, .. }) => (*a as usize, *b as usize),
        other => panic!("expected two constant loads, got {other:?}"),
    };
    assert!(matches!(p.consts[then_k], Value::Int(10)), "the then branch follows the test");
    assert!(matches!(p.consts[else_k], Value::Int(20)), "the else branch follows the jump");
    assert_eq!(p.code[at], Instr::JumpUnless { cond: match p.code[at] { Instr::JumpUnless { cond, .. } => cond, _ => 0 }, target: (at + 3) as u32 });
    assert_eq!(p.code[at + 2], Instr::Jump { target: (at + 4) as u32 });
}

#[test]
fn a_loop_resolves_to_a_let_calling_its_own_function() {
    let (chunk, _) = compile_ok("(loop [i 0 j 1] (if (< i 3) (recur (+ i 1) j) j))");
    let looped = &chunk.protos[1];
    assert_eq!(looped.params, 2, "the loop's function takes its two bindings");
    assert!(!looped.variadic);
    assert_eq!(looped.code.iter().filter(|i| matches!(i, Instr::TailCall { .. })).count(), 1, "recur re-enters it");
}

fn node(c: compile::Core) -> compile::Expr {
    compile::Expr { core: c, origin: SpanOrigin::Unknown }
}

#[test]
fn a_flat_top_level_lowers_and_ends_in_a_tail_call() {
    let mut names = Interner::new();
    let f = match names.sym("f") {
        Value::Sym(s) => s,
        _ => unreachable!(),
    };
    let call = node(compile::Core::Call(
        Box::new(node(compile::Core::Global(f))),
        vec![node(compile::Core::Literal(Value::Int(1))), node(compile::Core::Literal(Value::Int(2)))],
    ));
    let top = compile::FnDef {
        name: None,
        params: 0,
        variadic: false,
        locals: 0,
        captures: Vec::new(),
        body: vec![node(compile::Core::Do(vec![node(compile::Core::Literal(Value::Nil))])), call],
        origin: SpanOrigin::Unknown,
    };
    let chunk = compile::lower(&top).expect("a flat tree lowers");
    let code = &chunk.protos[0].code;
    assert!(code.len() >= 2);
    assert!(matches!(code[code.len() - 2], Instr::TailCall { argc: 2, .. }));
    assert!(matches!(code[code.len() - 1], Instr::Return { .. }));
}

#[test]
fn a_unit_ending_in_a_call_ends_its_top_level_in_a_tail_call() {
    let mut names = Interner::new();
    let forms = reader::read_all("(def x 1) (f x 2)", &mut names, &Host).expect("reads");
    let chunk = compile::compile(&forms, &mut names).expect("compiles");
    let code = &chunk.protos[0].code;
    assert!(matches!(code[code.len() - 2], Instr::TailCall { argc: 2, .. }));
}
