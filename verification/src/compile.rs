//! The core AST and the slot compiler.
//!
//! Two passes. The resolver turns forms into `Core`, deciding what every
//! symbol is (a local, a capture, the running function itself, or a global)
//! and nothing about layout. The lowering assigns slots monotonically and
//! emits instructions; bindings and temporaries come out of the same counter
//! and are never reused.

use crate::bytecode::{jump_target, names_slots_below, CaptureSrc, Chunk, Instr, Proto};
use crate::error::{LispErr, SpanOrigin};
use crate::text::{cat, cat3, copy_str, nat_to_text, push_str};
use crate::value::{
    children_spec, flatten_pairs, grows, kind_name, last_index_of, same_const, Interner, LocatedForm,
    Origins, SymId, Value,
};
use vstd::prelude::*;

verus! {

broadcast use vstd::std_specs::vec::axiom_vec_decreases_to_view;

// --- the core AST -------------------------------------------------------------

/// The closed core. `literal` absorbs `quote`, and a local arrives as one of
/// three resolutions: a slot in this frame, a capture, or the running
/// closure itself.
#[derive(Debug)]
pub enum Core {
    Literal(Value),
    Local(u32),
    Capture(u32),
    SelfFn,
    Global(SymId),
    If(Box<Expr>, Box<Expr>, Box<Expr>),
    Do(Vec<Expr>),
    Let(Vec<(u32, Expr)>, Vec<Expr>),
    Fn(Box<FnDef>),
    Call(Box<Expr>, Vec<Expr>),
    SetCell(Box<Expr>, Box<Expr>),
    SetGlobal(SymId, Box<Expr>),
    Throw(Box<Expr>),
    Try(Box<TryForm>),
    /// A re-entry into the enclosing `loop`, lowered as a tail call to the
    /// loop's own function.
    Recur(Vec<Expr>),
}

/// A core node and where it came from.
#[derive(Debug)]
pub struct Expr {
    pub core: Core,
    pub origin: SpanOrigin,
}

#[derive(Debug)]
pub struct FnDef {
    pub name: Option<SymId>,
    /// Named parameters, including the rest parameter when `variadic`.
    pub params: u32,
    pub variadic: bool,
    /// How many local ids this function hands out. Parameters are
    /// `0..params`.
    pub locals: u32,
    pub captures: Vec<CaptureSpec>,
    pub body: Vec<Expr>,
    pub origin: SpanOrigin,
}

/// A capture in the resolver's terms: local ids, not slots.
#[derive(Clone, Copy, PartialEq, Eq, Debug, Structural)]
pub enum CaptureSpec {
    Local(u32),
    Capture(u32),
    SelfFn,
}

#[derive(Debug)]
pub struct TryForm {
    pub body: Vec<Expr>,
    pub catch: Option<(u32, Vec<Expr>)>,
    pub finally: Option<Vec<Expr>>,
}

// --- walking forms ---------------------------------------------------------------

/// How many children of a form are walked: values and origins are paired,
/// so a form has as many as the shorter of the two has.
pub open spec fn form_len(v: Value, o: Origins) -> nat {
    let n = children_spec(v).len();
    if n <= o.children@.len() {
        n
    } else {
        o.children@.len()
    }
}

fn items_len(v: &Value, o: &Origins) -> (r: usize)
    ensures
        r == form_len(*v, *o),
{
    let n = match v {
        Value::List(l) => l.len(),
        Value::Vec(x) => x.len(),
        Value::Dict(m) => {
            let k = m.len();
            if k <= o.children.len() / 2 {
                2 * k
            } else {
                o.children.len()
            }
        },
        _ => 0,
    };
    if n <= o.children.len() {
        n
    } else {
        o.children.len()
    }
}

// --- the shape of the core forms ---------------------------------------------

/// The id a name interns to in a table: its last entry.
pub open spec fn special(names: Seq<Seq<char>>, s: Seq<char>) -> SymId {
    SymId(last_index_of(names, s)->Some_0 as u32)
}

/// A non-empty list whose head is the symbol `s` interns to.
pub open spec fn headed(names: Seq<Seq<char>>, v: Value, s: Seq<char>) -> bool {
    v matches Value::List(l) && l@.len() > 0 && l@[0] == Value::Sym(special(names, s))
}

/// The refusal that is no fault of the program's shape: one function binds
/// more locals than its 32-bit slot ids can name.
pub open spec fn locals_overflow(e: LispErr) -> bool {
    e.msg@ == "a function binds more locals than fit in 32 bits"@
}

/// A parameter vector: symbols only, with at most one `&`, second to last,
/// and followed by a rest parameter that is not `&` itself.
pub open spec fn params_shaped(names: Seq<Seq<char>>, pv: Value, po: Origins) -> bool {
    let n = form_len(pv, po);
    let rest = Value::Sym(special(names, "&"@));
    forall|i: int|
        0 <= i < n ==> (#[trigger] children_spec(pv)[i]) is Sym && (children_spec(pv)[i] == rest ==> i
            + 2 == n && children_spec(pv)[i + 1] != rest)
}

/// A form the resolver accepts: every core form has the shape its
/// definition asks for, `recur` stands where a `loop` of its arity is the
/// innermost function, and nothing uncompilable is quoted in by a macro.
/// `arity` is the innermost function's `loop` arity, if it is a `loop`.
pub open spec fn shaped(names: Seq<Seq<char>>, arity: Option<u32>, v: Value, o: Origins) -> bool
    decreases v, 2nat, 0int,
{
    match v {
        Value::List(l) => l@.len() == 0 || list_shaped(names, arity, v, o),
        Value::Vec(_) => shaped_from(names, arity, v, o, 0),
        Value::Dict(_) => shaped_from(names, arity, v, o, 0),
        Value::Fn(_) => false,
        Value::Cell(_) => false,
        Value::Handle(_) => false,
        Value::Buffer(_) => false,
        _ => true,
    }
}

/// The children of a form from `from` on are each shaped.
pub open spec fn shaped_from(names: Seq<Seq<char>>, arity: Option<u32>, v: Value, o: Origins, from: int) -> bool
    decreases v, 0nat, form_len(v, o) - from,
{
    if from < 0 || from >= form_len(v, o) {
        true
    } else {
        proof {
            lemma_child_smaller(v, from);
        }
        shaped(names, arity, children_spec(v)[from], o.children@[from]) && shaped_from(
            names,
            arity,
            v,
            o,
            from + 1,
        )
    }
}

/// `shaped_from` is the children from `from` on, each shaped.
pub proof fn lemma_shaped_from(names: Seq<Seq<char>>, arity: Option<u32>, v: Value, o: Origins, from: int)
    requires
        0 <= from,
    ensures
        shaped_from(names, arity, v, o, from) <==> forall|i: int|
            from <= i < form_len(v, o) ==> #[trigger] shaped(names, arity, children_spec(v)[i], o.children@[i]),
    decreases form_len(v, o) - from,
{
    if from < form_len(v, o) {
        lemma_shaped_from(names, arity, v, o, from + 1);
        assert(shaped_from(names, arity, v, o, from) == (shaped(
            names,
            arity,
            children_spec(v)[from],
            o.children@[from],
        ) && shaped_from(names, arity, v, o, from + 1)));
        if forall|i: int|
            from + 1 <= i < form_len(v, o) ==> #[trigger] shaped(names, arity, children_spec(v)[i], o.children@[i]) {
            if shaped(names, arity, children_spec(v)[from], o.children@[from]) {
                assert forall|i: int| from <= i < form_len(v, o) implies #[trigger] shaped(
                    names,
                    arity,
                    children_spec(v)[i],
                    o.children@[i],
                ) by {
                    if i > from {
                    }
                }
            }
        }
    }
}

/// The pairs of a binding vector from `from` on: a symbol, then a shaped
/// initializer, with no name left without a value.
pub open spec fn bindings_shaped(names: Seq<Seq<char>>, arity: Option<u32>, bv: Value, bo: Origins, from: int) -> bool
    decreases bv, 0nat, form_len(bv, bo) - from,
{
    let n = form_len(bv, bo);
    if n % 2 != 0 {
        false
    } else if from < 0 || from + 1 >= n {
        true
    } else {
        proof {
            lemma_child_smaller(bv, from + 1);
        }
        children_spec(bv)[from] is Sym && shaped(
            names,
            arity,
            children_spec(bv)[from + 1],
            bo.children@[from + 1],
        ) && bindings_shaped(names, arity, bv, bo, from + 2)
    }
}

/// The clauses of a `try` from `i` on: body forms, then at most one
/// `catch` binding one symbol, then at most one `finally`.
pub open spec fn try_shaped(
    names: Seq<Seq<char>>,
    arity: Option<u32>,
    v: Value,
    o: Origins,
    i: int,
    caught: bool,
    finished: bool,
) -> bool
    decreases v, 0nat, form_len(v, o) - i,
{
    if i < 0 || i >= form_len(v, o) {
        true
    } else {
        let cv = children_spec(v)[i];
        let co = o.children@[i];
        proof {
            lemma_child_smaller(v, i);
        }
        if headed(names, cv, "catch"@) {
            !caught && !finished && form_len(cv, co) > 1 && children_spec(cv)[1] is Sym && shaped_from(
                names,
                arity,
                cv,
                co,
                2,
            ) && try_shaped(names, arity, v, o, i + 1, true, finished)
        } else if headed(names, cv, "finally"@) {
            !finished && shaped_from(names, arity, cv, co, 1) && try_shaped(
                names,
                arity,
                v,
                o,
                i + 1,
                caught,
                true,
            )
        } else if caught || finished {
            false
        } else {
            shaped(names, arity, cv, co) && try_shaped(names, arity, v, o, i + 1, caught, finished)
        }
    }
}

/// Where `fn`'s parameter vector stands: after the optional name.
pub open spec fn fn_params_at(v: Value, o: Origins) -> int {
    if form_len(v, o) > 1 && children_spec(v)[1] is Sym {
        2
    } else {
        1
    }
}

/// `(if test then else?)`.
pub open spec fn if_shaped(names: Seq<Seq<char>>, arity: Option<u32>, v: Value, o: Origins) -> bool
    decreases v, 1nat, 0int,
{
    3 <= form_len(v, o) <= 4 && shaped_from(names, arity, v, o, 1)
}

/// `(let [bindings…] body…)`.
pub open spec fn let_shaped(names: Seq<Seq<char>>, arity: Option<u32>, v: Value, o: Origins) -> bool
    decreases v, 1nat, 0int,
{
    form_len(v, o) >= 2 && children_spec(v)[1] is Vec && {
        proof {
            lemma_child_smaller(v, 1);
        }
        bindings_shaped(names, arity, children_spec(v)[1], o.children@[1], 0)
    } && shaped_from(names, arity, v, o, 2)
}

/// The arity of a `loop`: how many names its binding vector binds.
pub open spec fn loop_arity_of(v: Value, o: Origins) -> u32 {
    (form_len(children_spec(v)[1], o.children@[1]) / 2) as u32
}

/// `(loop [bindings…] body…)`: the initializers in the enclosing function,
/// the body in the loop's own.
pub open spec fn loop_shaped(names: Seq<Seq<char>>, arity: Option<u32>, v: Value, o: Origins) -> bool
    decreases v, 1nat, 0int,
{
    form_len(v, o) >= 2 && children_spec(v)[1] is Vec && {
        proof {
            lemma_child_smaller(v, 1);
        }
        bindings_shaped(names, arity, children_spec(v)[1], o.children@[1], 0)
    } && shaped_from(names, Some(loop_arity_of(v, o)), v, o, 2)
}

/// What a `loop` resolves to: a `let` of its bindings whose one body form
/// calls a fresh function of `arity` parameters (the loop itself, with
/// `body` forms) on the bound locals, in order.
pub open spec fn resolved_loop(c: Core, arity: u32, body: nat) -> bool {
    &&& c matches Core::Let(binds, call)
    &&& binds@.len() as u32 == arity
    &&& call@.len() == 1
    &&& call@[0].core matches Core::Call(callee, args)
    &&& args@.len() == binds@.len()
    &&& forall|i: int| 0 <= i < args@.len() ==> (#[trigger] args@[i]).core == Core::Local(binds@[i].0)
    &&& callee.core matches Core::Fn(def)
    &&& def.params == arity && !def.variadic && def.name is None && def.body@.len() == body
}

/// `(recur e…)`: the innermost function is a `loop` taking as many.
pub open spec fn recur_shaped(names: Seq<Seq<char>>, arity: Option<u32>, v: Value, o: Origins) -> bool
    decreases v, 1nat, 0int,
{
    let n = form_len(v, o);
    arity matches Some(a) && (if n == 0 {
        0
    } else {
        n - 1
    }) == a && shaped_from(names, arity, v, o, 1)
}

/// `(fn name? [params…] body…)`: the body in a function of its own.
pub open spec fn fn_shaped(names: Seq<Seq<char>>, v: Value, o: Origins) -> bool
    decreases v, 1nat, 0int,
{
    let at = fn_params_at(v, o);
    at < form_len(v, o) && children_spec(v)[at] is Vec && params_shaped(
        names,
        children_spec(v)[at],
        o.children@[at],
    ) && shaped_from(names, None, v, o, at + 1)
}

/// `(set-global! name value)`.
pub open spec fn set_global_shaped(names: Seq<Seq<char>>, arity: Option<u32>, v: Value, o: Origins) -> bool
    decreases v, 1nat, 0int,
{
    form_len(v, o) == 3 && children_spec(v)[1] is Sym && shaped_from(names, arity, v, o, 2)
}

/// A non-empty list, by its head.
pub open spec fn list_shaped(names: Seq<Seq<char>>, arity: Option<u32>, v: Value, o: Origins) -> bool
    decreases v, 1nat, 1int,
{
    let n = form_len(v, o);
    if headed(names, v, "if"@) {
        if_shaped(names, arity, v, o)
    } else if headed(names, v, "do"@) {
        shaped_from(names, arity, v, o, 1)
    } else if headed(names, v, "let"@) {
        let_shaped(names, arity, v, o)
    } else if headed(names, v, "loop"@) {
        loop_shaped(names, arity, v, o)
    } else if headed(names, v, "recur"@) {
        recur_shaped(names, arity, v, o)
    } else if headed(names, v, "fn"@) {
        fn_shaped(names, v, o)
    } else if headed(names, v, "quote"@) {
        n == 2
    } else if headed(names, v, "set-cell!"@) {
        n == 3 && shaped_from(names, arity, v, o, 1)
    } else if headed(names, v, "set-global!"@) {
        set_global_shaped(names, arity, v, o)
    } else if headed(names, v, "throw"@) {
        n == 2 && shaped_from(names, arity, v, o, 1)
    } else if headed(names, v, "try"@) {
        try_shaped(names, arity, v, o, 1, false, false)
    } else if headed(names, v, "catch"@) || headed(names, v, "finally"@) {
        false
    } else {
        n > 0 && shaped_from(names, arity, v, o, 0)
    }
}

/// How many nodes a form has, itself and every descendant it pairs with an
/// origin. No function can bind more locals than its forms have nodes.
pub open spec fn form_size(v: Value, o: Origins) -> nat
    decreases v, 1nat, 0int,
{
    1 + sizes_from(v, o, 0)
}

/// The nodes of a form's children from `from` on.
pub open spec fn sizes_from(v: Value, o: Origins, from: int) -> nat
    decreases v, 0nat, form_len(v, o) - from,
{
    if from < 0 || from >= form_len(v, o) {
        0
    } else {
        proof {
            lemma_child_smaller(v, from);
        }
        form_size(children_spec(v)[from], o.children@[from]) + sizes_from(v, o, from + 1)
    }
}

/// The nodes of a file's forms from `from` on.
pub open spec fn forms_size(forms: Seq<LocatedForm>, from: int) -> nat
    decreases forms.len() - from,
{
    if from < 0 || from >= forms.len() {
        0
    } else {
        form_size(forms[from].root, forms[from].origins) + forms_size(forms, from + 1)
    }
}

/// Every child counts at least its own node, and fewer children count less.
pub proof fn lemma_sizes_from(v: Value, o: Origins, i: int, j: int)
    requires
        0 <= i <= j,
    ensures
        sizes_from(v, o, i) >= sizes_from(v, o, j),
        i <= form_len(v, o) ==> sizes_from(v, o, i) >= form_len(v, o) - i,
    decreases form_len(v, o) - i,
{
    if i < form_len(v, o) {
        assert(form_size(children_spec(v)[i], o.children@[i]) >= 1);
        assert(sizes_from(v, o, i) == form_size(children_spec(v)[i], o.children@[i]) + sizes_from(v, o, i + 1));
        if i < j {
            lemma_sizes_from(v, o, i + 1, j);
        } else {
            lemma_sizes_from(v, o, i + 1, j + 1);
        }
    }
}

/// A child's nodes, with those of the children after it, are among its
/// parent's.
pub proof fn lemma_child_size(v: Value, o: Origins, i: int)
    requires
        0 <= i < form_len(v, o),
    ensures
        sizes_from(v, o, i) == form_size(children_spec(v)[i], o.children@[i]) + sizes_from(v, o, i + 1),
        sizes_from(v, o, i) <= sizes_from(v, o, 0),
        sizes_from(v, o, 0) < form_size(v, o),
{
    lemma_sizes_from(v, o, 0, i);
}

/// Every form of a file is shaped, at top level, where no `loop` encloses it.
pub open spec fn forms_shaped(names: Seq<Seq<char>>, forms: Seq<LocatedForm>) -> bool {
    forall|j: int| 0 <= j < forms.len() ==> #[trigger] shaped(names, None, forms[j].root, forms[j].origins)
}

/// A child of a form, and its origins.
fn child<'a>(v: &'a Value, o: &'a Origins, i: usize) -> (r: (&'a Value, &'a Origins))
    requires
        i < form_len(*v, *o),
    ensures
        *r.0 == children_spec(*v)[i as int],
        *r.1 == o.children@[i as int],
{
    match v {
        Value::List(l) => (&l[i], &o.children[i]),
        Value::Vec(x) => (&x[i], &o.children[i]),
        Value::Dict(m) => {
            let pair = &m[i / 2];
            if i % 2 == 0 {
                (&pair.0, &o.children[i])
            } else {
                (&pair.1, &o.children[i])
            }
        },
        _ => {
            assert(false);
            (v, o)
        },
    }
}

/// A syntactic child is structurally smaller than its parent.
pub proof fn lemma_child_smaller(v: Value, i: int)
    requires
        0 <= i < children_spec(v).len(),
    ensures
        decreases_to!(v => children_spec(v)[i]),
{
    match v {
        Value::List(l) => {
            assert(decreases_to!(l@ => l@[i]));
        },
        Value::Vec(l) => {
            assert(decreases_to!(l@ => l@[i]));
        },
        Value::Dict(m) => {
            let p = m@[i / 2];
            assert(decreases_to!(m@ => p));
            assert(decreases_to!(p => p.0));
            assert(decreases_to!(p => p.1));
            assert(flatten_pairs(m@)[i] == if i % 2 == 0 {
                p.0
            } else {
                p.1
            });
        },
        _ => {},
    }
}

fn sym_of(v: &Value) -> (r: Option<SymId>)
    ensures
        match *v {
            Value::Sym(s) => r == Some(s),
            _ => r is None,
        },
{
    match v {
        Value::Sym(s) => Some(*s),
        _ => None,
    }
}

/// The head symbol of a non-empty list.
pub fn head_sym(v: &Value) -> (r: Option<SymId>)
    ensures
        match *v {
            Value::List(l) => if l@.len() > 0 && l@[0] is Sym {
                r == Some(l@[0]->Sym_0)
            } else {
                r is None
            },
            _ => r is None,
        },
{
    match v {
        Value::List(l) => {
            if l.len() > 0 {
                match &l[0] {
                    Value::Sym(s) => Some(*s),
                    _ => None,
                }
            } else {
                None
            }
        },
        _ => None,
    }
}

fn err_at(o: &Origins, msg: String) -> (e: LispErr)
    ensures
        e.origin == o.origin,
        e.msg@ == msg@,
{
    LispErr::at_origin(o.origin, msg)
}

fn err_kind(o: &Origins, a: &str, v: &Value) -> (e: LispErr)
    ensures
        e.origin == o.origin,
{
    err_at(o, cat(a, kind_name(v)))
}

// --- the resolver ----------------------------------------------------------------

/// The core-form names, interned once; a head symbol is compared by id.
struct Specials {
    if_: SymId,
    do_: SymId,
    let_: SymId,
    fn_: SymId,
    quote: SymId,
    set_cell: SymId,
    set_global: SymId,
    throw: SymId,
    try_: SymId,
    catch: SymId,
    finally: SymId,
    rest: SymId,
    vector: SymId,
    hash_map: SymId,
    loop_: SymId,
    recur: SymId,
}

impl Specials {
    /// Each field is the id its name interns to in `names`.
    spec fn named(self, names: Seq<Seq<char>>) -> bool {
        &&& self.if_ == special(names, "if"@)
        &&& self.do_ == special(names, "do"@)
        &&& self.let_ == special(names, "let"@)
        &&& self.fn_ == special(names, "fn"@)
        &&& self.quote == special(names, "quote"@)
        &&& self.set_cell == special(names, "set-cell!"@)
        &&& self.set_global == special(names, "set-global!"@)
        &&& self.throw == special(names, "throw"@)
        &&& self.try_ == special(names, "try"@)
        &&& self.catch == special(names, "catch"@)
        &&& self.finally == special(names, "finally"@)
        &&& self.rest == special(names, "&"@)
        &&& self.vector == special(names, "vector"@)
        &&& self.hash_map == special(names, "hash-map"@)
        &&& self.loop_ == special(names, "loop"@)
        &&& self.recur == special(names, "recur"@)
    }

    #[verifier::rlimit(60)]
    fn new(i: &mut Interner) -> (r: Specials)
        ensures
            grows(old(i)@, final(i)@),
            r.named(final(i)@),
    {
        proof {
            reveal_strlit("if");
            assert("if"@[0] == 'i' && "if"@.len() == 2);
            reveal_strlit("do");
            assert("do"@[0] == 'd' && "do"@.len() == 2);
            reveal_strlit("let");
            assert("let"@[0] == 'l' && "let"@.len() == 3);
            reveal_strlit("fn");
            assert("fn"@[0] == 'f' && "fn"@.len() == 2);
            reveal_strlit("quote");
            assert("quote"@[0] == 'q' && "quote"@.len() == 5);
            reveal_strlit("set-cell!");
            assert("set-cell!"@[0] == 's' && "set-cell!"@.len() == 9);
            reveal_strlit("set-global!");
            assert("set-global!"@[0] == 's' && "set-global!"@.len() == 11);
            reveal_strlit("throw");
            assert("throw"@[0] == 't' && "throw"@.len() == 5);
            reveal_strlit("try");
            assert("try"@[0] == 't' && "try"@.len() == 3);
            reveal_strlit("catch");
            assert("catch"@[0] == 'c' && "catch"@.len() == 5);
            reveal_strlit("finally");
            assert("finally"@[0] == 'f' && "finally"@.len() == 7);
            reveal_strlit("&");
            assert("&"@[0] == '&' && "&"@.len() == 1);
            reveal_strlit("vector");
            assert("vector"@[0] == 'v' && "vector"@.len() == 6);
            reveal_strlit("hash-map");
            assert("hash-map"@[0] == 'h' && "hash-map"@.len() == 8);
            reveal_strlit("loop");
            assert("loop"@[0] == 'l' && "loop"@.len() == 4);
            reveal_strlit("recur");
            assert("recur"@[0] == 'r' && "recur"@.len() == 5);
        }
        let if_ = intern_special(i, "if");
        let do_ = intern_special(i, "do");
        let let_ = intern_special(i, "let");
        let fn_ = intern_special(i, "fn");
        let quote = intern_special(i, "quote");
        let set_cell = intern_special(i, "set-cell!");
        let set_global = intern_special(i, "set-global!");
        let throw = intern_special(i, "throw");
        let try_ = intern_special(i, "try");
        let catch = intern_special(i, "catch");
        let finally = intern_special(i, "finally");
        let rest = intern_special(i, "&");
        let vector = intern_special(i, "vector");
        let hash_map = intern_special(i, "hash-map");
        let loop_ = intern_special(i, "loop");
        let recur = intern_special(i, "recur");
        Specials {
            if_,
            do_,
            let_,
            fn_,
            quote,
            set_cell,
            set_global,
            throw,
            try_,
            catch,
            finally,
            rest,
            vector,
            hash_map,
            loop_,
            recur,
        }
    }
}

/// Intern one core-form name; what any other name interns to stays put.
pub(crate) fn intern_special(i: &mut Interner, s: &str) -> (r: SymId)
    ensures
        grows(old(i)@, final(i)@),
        final(i)@ == crate::reader::with_name(old(i)@, s@),
        r == special(final(i)@, s@),
        forall|t: Seq<char>| t != s@ ==> #[trigger] last_index_of(final(i)@, t) == last_index_of(old(i)@, t),
{
    let ghost before = i@;
    let id = i.intern(s);
    proof {
        if last_index_of(before, s@) is None {
            assert(i@.drop_last() =~= before);
            assert forall|t: Seq<char>| t != s@ implies #[trigger] last_index_of(i@, t) == last_index_of(before, t) by {
                assert(i@.last() == s@);
            }
        }
    }
    SymId(id)
}

struct FnScope {
    name: Option<SymId>,
    locals: u32,
    scopes: Vec<Vec<(SymId, u32)>>,
    captures: Vec<CaptureSpec>,
    /// `Some(n)` when this function is a `loop` of arity `n`. Only the
    /// innermost function is consulted, so a `recur` inside a nested `fn`
    /// cannot target the loop outside it.
    loop_arity: Option<u32>,
}

impl FnScope {
    fn new(name: Option<SymId>) -> (r: FnScope)
        ensures
            r.name == name,
            r.locals == 0,
            r.scopes@.len() == 1,
            r.scopes@[0]@.len() == 0,
            r.captures@.len() == 0,
            r.loop_arity is None,
    {
        let mut scopes: Vec<Vec<(SymId, u32)>> = Vec::new();
        scopes.push(Vec::new());
        FnScope { name, locals: 0, scopes, captures: Vec::new(), loop_arity: None }
    }
}

/// The id the newest binding of `name` in a block holds.
spec fn newest_in_block(b: Seq<(SymId, u32)>, name: SymId) -> Option<u32>
    decreases b.len(),
{
    if b.len() == 0 {
        None
    } else if b.last().0 == name {
        Some(b.last().1)
    } else {
        newest_in_block(b.drop_last(), name)
    }
}

/// The id the newest binding of `name` holds, innermost block first.
spec fn newest_binding(scopes: Seq<Vec<(SymId, u32)>>, name: SymId) -> Option<u32>
    decreases scopes.len(),
{
    if scopes.len() == 0 {
        None
    } else {
        match newest_in_block(scopes.last()@, name) {
            Some(id) => Some(id),
            None => newest_binding(scopes.drop_last(), name),
        }
    }
}

/// The resolver is at the top level of a unit with nothing bound: one
/// function, and no name bound in it.
spec fn unbound(r: Resolver) -> bool {
    &&& r.fns@.len() == 1
    &&& forall|s: SymId| #[trigger] newest_binding(r.fns@[0].scopes@, s) is None
}

struct Resolver {
    sp: Specials,
    fns: Vec<FnScope>,
}

impl Resolver {
    spec fn wf(&self) -> bool {
        self.fns@.len() >= 1
    }

    /// Resolution keeps the function stack as it found it: as deep, and
    /// each function still the `loop` it was or was not.
    spec fn kept(self, next: Resolver) -> bool {
        &&& next.wf()
        &&& next.fns@.len() == self.fns@.len()
        &&& next.sp == self.sp
        &&& forall|j: int|
            0 <= j < self.fns@.len() ==> #[trigger] next.fns@[j].loop_arity == self.fns@[j].loop_arity
        &&& forall|j: int| 0 <= j < self.fns@.len() - 1 ==> #[trigger] next.fns@[j].locals == self.fns@[j].locals
    }

    /// How many locals the innermost function has handed out.
    spec fn locals(self) -> int {
        self.top().locals as int
    }

    /// The innermost function's `loop` arity, if it is a `loop`.
    spec fn arity(self) -> Option<u32> {
        self.fns@[self.fns@.len() - 1].loop_arity
    }

    /// The innermost function's scope.
    spec fn top(self) -> FnScope {
        self.fns@[self.fns@.len() - 1]
    }

    /// `next` differs from `self` at most in the innermost function's
    /// scope, which becomes `f`.
    spec fn with_top(self, next: Resolver, f: FnScope) -> bool {
        &&& next.sp == self.sp
        &&& next.fns@.len() == self.fns@.len()
        &&& forall|j: int| 0 <= j < self.fns@.len() - 1 ==> #[trigger] next.fns@[j] == self.fns@[j]
        &&& next.top() == f
    }

    /// The local id `name` is bound to in the innermost function, if any
    /// block scope binds it; the newest binding wins.
    fn find_local(&self, level: usize, name: SymId) -> (r: Option<u32>)
        requires
            level < self.fns@.len(),
        ensures
            r == newest_binding(self.fns@[level as int].scopes@, name),
    {
        let f = &self.fns[level];
        let mut s = f.scopes.len();
        proof {
            assert(f.scopes@.take(s as int) =~= f.scopes@);
        }
        while s > 0
            invariant
                s <= f.scopes@.len(),
                newest_binding(f.scopes@.take(s as int), name) == newest_binding(f.scopes@, name),
                level < self.fns@.len(),
                *f == self.fns@[level as int],
            decreases s,
        {
            let scope = &f.scopes[s - 1];
            proof {
                assert(f.scopes@.take(s as int).drop_last() =~= f.scopes@.take(s - 1));
                assert(scope@.take(scope@.len() as int) =~= scope@);
            }
            let mut k = scope.len();
            while k > 0
                invariant
                    k <= scope@.len(),
                    newest_in_block(scope@.take(k as int), name) == newest_in_block(scope@, name),
                    0 < s <= f.scopes@.len(),
                    *scope == f.scopes@[s - 1],
                    f.scopes@.take(s as int).last() == f.scopes@[s - 1],
                    newest_binding(f.scopes@.take(s as int), name) == newest_binding(f.scopes@, name),
                    f.scopes@.take(s as int).drop_last() =~= f.scopes@.take(s - 1),
                    level < self.fns@.len(),
                    *f == self.fns@[level as int],
                decreases k,
            {
                proof {
                    assert(scope@.take(k as int).drop_last() =~= scope@.take(k - 1));
                }
                if scope[k - 1].0 == name {
                    return Some(scope[k - 1].1);
                }
                k = k - 1;
            }
            s = s - 1;
        }
        None
    }

    /// A symbol resolves against the innermost function first, then
    /// outward, adding a capture at every level it crosses. A name that
    /// reaches no binding is a global.
    fn lookup(&mut self, level: usize, name: SymId) -> (r: Option<Core>)
        requires
            old(self).wf(),
            level < old(self).fns@.len(),
        ensures
            old(self).kept(*final(self)),
            final(self).locals() == old(self).locals(),
            r matches Some(c) ==> (c is Local || c is Capture || c is SelfFn),
            newest_binding(old(self).fns@[level as int].scopes@, name) matches Some(id) ==> r == Some(
                Core::Local(id),
            ),
            newest_binding(old(self).fns@[level as int].scopes@, name) is None && old(self).fns@[level as int].name
                == Some(name) ==> r == Some(Core::SelfFn),
            newest_binding(old(self).fns@[level as int].scopes@, name) is None && old(self).fns@[level as int].name
                != Some(name) && level == 0 ==> r is None,
            newest_binding(old(self).fns@[level as int].scopes@, name) is None && level == 0 ==> *final(self)
                == *old(self),
        decreases level,
    {
        match self.find_local(level, name) {
            Some(id) => {
                return Some(Core::Local(id));
            },
            None => {},
        }
        if self.fns[level].name == Some(name) {
            return Some(Core::SelfFn);
        }
        if level == 0 {
            return None;
        }
        let spec = match self.lookup(level - 1, name) {
            Some(Core::Local(id)) => CaptureSpec::Local(id),
            Some(Core::Capture(i)) => CaptureSpec::Capture(i),
            Some(Core::SelfFn) => CaptureSpec::SelfFn,
            _ => {
                return None;
            },
        };
        Some(Core::Capture(self.add_capture(level, spec)))
    }

    /// The index of `spec` among the function's captures, adding it if new.
    fn add_capture(&mut self, level: usize, spec: CaptureSpec) -> (r: u32)
        requires
            old(self).wf(),
            level < old(self).fns@.len(),
        ensures
            old(self).kept(*final(self)),
            final(self).locals() == old(self).locals(),
            final(self).fns@.len() == old(self).fns@.len(),
            forall|j: int| 0 <= j < old(self).fns@.len() && j != level ==> #[trigger] final(self).fns@[j] == old(self).fns@[j],
            final(self).fns@[level as int].name == old(self).fns@[level as int].name,
            final(self).fns@[level as int].locals == old(self).fns@[level as int].locals,
            final(self).fns@[level as int].scopes == old(self).fns@[level as int].scopes,
            final(self).fns@[level as int].captures@ == (if old(self).fns@[level as int].captures@.contains(spec) {
                old(self).fns@[level as int].captures@
            } else {
                old(self).fns@[level as int].captures@.push(spec)
            }),
            exists|i: int|
                0 <= i < final(self).fns@[level as int].captures@.len() && final(self).fns@[level as int].captures@[i]
                    == spec && r == i as u32 && forall|j: int|
                    0 <= j < i ==> #[trigger] final(self).fns@[level as int].captures@[j] != spec,
    {
        let n = self.fns[level].captures.len();
        let mut i: usize = 0;
        while i < n
            invariant
                n == self.fns@[level as int].captures@.len(),
                level < self.fns@.len(),
                *self == *old(self),
                i <= n,
                forall|j: int| 0 <= j < i ==> #[trigger] self.fns@[level as int].captures@[j] != spec,
            decreases n - i,
        {
            if self.fns[level].captures[i] == spec {
                proof {
                    assert(self.fns@[level as int].captures@.contains(spec));
                }
                return #[verifier::truncate] (i as u32);
            }
            i = i + 1;
        }
        proof {
            assert(!self.fns@[level as int].captures@.contains(spec));
        }
        let mut f = self.fns.remove(level);
        f.captures.push(spec);
        self.fns.insert(level, f);
        proof {
            assert(self.fns@[level as int].captures@[n as int] == spec);
        }
        #[verifier::truncate] (n as u32)
    }

    /// A new local in the innermost block of the innermost function: the
    /// next id, bound to `name` after every binding the block already has.
    fn declare(&mut self, name: SymId, at: &Origins) -> (r: Result<u32, LispErr>)
        requires
            old(self).wf(),
        ensures
            old(self).kept(*final(self)),
            r matches Err(e) ==> locals_overflow(e),
            r is Err <==> old(self).top().locals == u32::MAX,
            r is Err ==> final(self).fns@ == old(self).fns@ && final(self).sp == old(self).sp,
            r matches Ok(id) ==> {
                let o = old(self).top();
                let t = final(self).top();
                &&& id == o.locals
                &&& old(self).with_top(*final(self), t)
                &&& t.name == o.name
                &&& t.locals == o.locals + 1
                &&& t.captures == o.captures
                &&& t.loop_arity == o.loop_arity
                &&& o.scopes@.len() == 0 ==> t.scopes@.len() == 1 && t.scopes@[0]@ == seq![(name, id)]
                &&& o.scopes@.len() > 0 ==> {
                    &&& t.scopes@.len() == o.scopes@.len()
                    &&& forall|j: int| 0 <= j < o.scopes@.len() - 1 ==> #[trigger] t.scopes@[j] == o.scopes@[j]
                    &&& t.scopes@.last()@ == o.scopes@.last()@.push((name, id))
                }
            },
    {
        let top = self.fns.len() - 1;
        let ghost before = *self;
        let mut f = self.fns.remove(top);
        if f.locals == u32::MAX {
            self.fns.push(f);
            proof {
                assert(self.fns@ =~= before.fns@);
            }
            return Err(err_at(at, copy_str("a function binds more locals than fit in 32 bits")));
        }
        let id = f.locals;
        f.locals = f.locals + 1;
        let n = f.scopes.len();
        if n == 0 {
            f.scopes.push(Vec::new());
        }
        let last = f.scopes.len() - 1;
        let mut block = f.scopes.remove(last);
        block.push((name, id));
        f.scopes.push(block);
        self.fns.push(f);
        Ok(id)
    }

    /// Open a block in the innermost function.
    fn push_scope(&mut self)
        requires
            old(self).wf(),
        ensures
            old(self).kept(*final(self)),
            old(self).with_top(*final(self), final(self).top()),
            final(self).top().name == old(self).top().name,
            final(self).top().locals == old(self).top().locals,
            final(self).top().captures == old(self).top().captures,
            final(self).top().loop_arity == old(self).top().loop_arity,
            final(self).top().scopes@.len() == old(self).top().scopes@.len() + 1,
            forall|j: int| 0 <= j < old(self).top().scopes@.len() ==> #[trigger] final(self).top().scopes@[j] == old(self).top().scopes@[j],
            final(self).top().scopes@.last()@.len() == 0,
    {
        let top = self.fns.len() - 1;
        let mut f = self.fns.remove(top);
        f.scopes.push(Vec::new());
        self.fns.push(f);
    }

    /// Close the innermost function's newest block; its outermost block
    /// stays.
    fn pop_scope(&mut self)
        requires
            old(self).wf(),
        ensures
            old(self).kept(*final(self)),
            old(self).with_top(*final(self), final(self).top()),
            final(self).top().name == old(self).top().name,
            final(self).top().locals == old(self).top().locals,
            final(self).top().captures == old(self).top().captures,
            final(self).top().loop_arity == old(self).top().loop_arity,
            final(self).top().scopes@ == (if old(self).top().scopes@.len() > 1 {
                old(self).top().scopes@.drop_last()
            } else {
                old(self).top().scopes@
            }),
    {
        let top = self.fns.len() - 1;
        let mut f = self.fns.remove(top);
        if f.scopes.len() > 1 {
            f.scopes.pop();
        }
        self.fns.push(f);
    }

    /// Pop the innermost function's scope.
    fn pop_fn(&mut self) -> (r: FnScope)
        requires
            old(self).fns@.len() >= 2,
        ensures
            final(self).fns@ == old(self).fns@.drop_last(),
            final(self).sp == old(self).sp,
    {
        let top = self.fns.len() - 1;
        self.fns.remove(top)
    }

    fn symbol(&mut self, s: SymId) -> (r: Core)
        requires
            old(self).wf(),
        ensures
            old(self).kept(*final(self)),
            final(self).locals() == old(self).locals(),
            newest_binding(old(self).fns@.last().scopes@, s) matches Some(id) ==> r == Core::Local(id),
            newest_binding(old(self).fns@.last().scopes@, s) is None && old(self).fns@.last().name == Some(s)
                ==> r == Core::SelfFn,
            unbound(*old(self)) ==> *final(self) == *old(self) && (r is Global || r is Capture || r is SelfFn),
    {
        let top = self.fns.len() - 1;
        match self.lookup(top, s) {
            Some(c) => c,
            None => Core::Global(s),
        }
    }

    /// One form to core.
    fn expr(&mut self, it: &Interner, v: &Value, o: &Origins) -> (r: Result<Expr, LispErr>)
        requires
            old(self).wf(),
            old(self).sp.named(it@),
        ensures
            old(self).kept(*final(self)),
            r matches Ok(e) ==> e.origin == o.origin,
            r is Ok ==> shaped(it@, old(self).arity(), *v, *o),
            r matches Err(e) ==> shaped(it@, old(self).arity(), *v, *o) ==> locals_overflow(e),
            r is Ok ==> final(self).locals() <= old(self).locals() + form_size(*v, *o),
            shaped(it@, old(self).arity(), *v, *o) && old(self).locals() + form_size(*v, *o) <= u32::MAX ==> r is Ok,
            r matches Ok(e) ==> (call_form(it@, *v) ==> e.core is Call),
            unbound(*old(self)) && flat_form(it@, *v, *o) ==> *final(self) == *old(self) && (r matches Ok(x) && flat(
                x,
            ) && flat_size(x) < form_size(*v, *o)),
        decreases *v, 3nat,
    {
        let origin = o.origin;
        let core = match v {
            Value::List(l) => {
                if l.len() == 0 {
                    Core::Literal(v.clone())
                } else {
                    match self.list(it, v, o) {
                        Ok(c) => c,
                        Err(e) => {
                            return Err(e);
                        },
                    }
                }
            },
            Value::Vec(_) => {
                let ctor = self.sp.vector;
                match self.literal_call(it, v, o, ctor) {
                    Ok(c) => c,
                    Err(e) => {
                        return Err(e);
                    },
                }
            },
            Value::Dict(_) => {
                let ctor = self.sp.hash_map;
                match self.literal_call(it, v, o, ctor) {
                    Ok(c) => c,
                    Err(e) => {
                        return Err(e);
                    },
                }
            },
            Value::Sym(s) => self.symbol(*s),
            Value::Fn(_) | Value::Cell(_) | Value::Handle(_) | Value::Buffer(_) => {
                return Err(err_kind(o, "cannot compile a ", v));
            },
            _ => Core::Literal(v.clone()),
        };
        Ok(Expr { core, origin })
    }

    /// Collection literals lower to calls of `vector` and `hash-map`,
    /// resolved as globals directly: `[x]` is a vector literal even where a
    /// local named `vector` is in scope.
    fn literal_call(&mut self, it: &Interner, v: &Value, o: &Origins, ctor: SymId) -> (r: Result<
        Core,
        LispErr,
    >)
        requires
            old(self).wf(),
            old(self).sp.named(it@),
        ensures
            old(self).kept(*final(self)),
            r is Ok ==> shaped_from(it@, old(self).arity(), *v, *o, 0),
            r matches Err(e) ==> shaped_from(it@, old(self).arity(), *v, *o, 0) ==> locals_overflow(e),
            r is Ok ==> final(self).locals() <= old(self).locals() + sizes_from(*v, *o, 0),
            shaped_from(it@, old(self).arity(), *v, *o, 0) && old(self).locals() + sizes_from(*v, *o, 0) <= u32::MAX ==> r is Ok,
        decreases *v, 1nat,
    {
        let callee = Expr { core: Core::Global(ctor), origin: o.origin };
        match self.exprs(it, v, o, 0) {
            Ok(args) => Ok(Core::Call(Box::new(callee), args)),
            Err(e) => Err(e),
        }
    }

    /// The children of a form from `from` on, each resolved.
    fn exprs(&mut self, it: &Interner, v: &Value, o: &Origins, from: usize) -> (r: Result<
        Vec<Expr>,
        LispErr,
    >)
        requires
            old(self).wf(),
            old(self).sp.named(it@),
        ensures
            old(self).kept(*final(self)),
            r matches Ok(es) ==> from <= form_len(*v, *o) ==> es@.len() == form_len(*v, *o) - from,
            r is Ok ==> shaped_from(it@, old(self).arity(), *v, *o, from as int),
            r matches Err(e) ==> shaped_from(it@, old(self).arity(), *v, *o, from as int) ==> locals_overflow(e),
            r is Ok ==> final(self).locals() <= old(self).locals() + sizes_from(*v, *o, from as int),
            shaped_from(it@, old(self).arity(), *v, *o, from as int) && old(self).locals() + sizes_from(*v, *o, from as int) <= u32::MAX ==> r is Ok,
            unbound(*old(self)) && flat_kids(it@, *v, *o, from as int) ==> *final(self) == *old(self) && (r matches Ok(
                es,
            ) && all_flat(es@, 0) && flat_sizes(es@, 0) + es@.len() <= sizes_from(*v, *o, from as int)),
        decreases *v, 0nat,
    {
        let n = items_len(v, o);
        let mut out: Vec<Expr> = Vec::new();
        let ghost fk = unbound(*old(self)) && flat_kids(it@, *v, *o, from as int);
        if from >= n {
            return Ok(out);
        }
        let mut i = from;
        let ghost a = old(self).arity();
        while i < n
            invariant
                old(self).kept(*self),
                self.arity() == a,
                self.sp.named(it@),
                n == form_len(*v, *o),
                from <= i <= n,
                out@.len() == i - from,
                shaped_from(it@, a, *v, *o, from as int) == shaped_from(it@, a, *v, *o, i as int),
                self.locals() + sizes_from(*v, *o, i as int) <= old(self).locals() + sizes_from(*v, *o, from as int),
                old(self).wf(),
                fk == (unbound(*old(self)) && flat_kids(it@, *v, *o, from as int)),
                fk ==> *self == *old(self) && flat_kids(it@, *v, *o, i as int) && all_flat(out@, 0) && flat_sizes(
                    out@,
                    0,
                ) + out@.len() + sizes_from(*v, *o, i as int) <= sizes_from(*v, *o, from as int),
            decreases n - i,
        {
            let (cv, co) = child(v, o, i);
            proof {
                lemma_child_smaller(*v, i as int);
                lemma_child_size(*v, *o, i as int);
            }
            let ghost before = out@;
            match self.expr(it, cv, co) {
                Ok(e) => {
                    out.push(e);
                    proof {
                        lemma_flat_push(before, e, 0);
                    }
                },
                Err(e) => {
                    return Err(e);
                },
            }
            i = i + 1;
        }
        Ok(out)
    }

    /// A list with a symbol head is a special form if the head names one,
    /// checked before scope: a core form cannot be shadowed by a local.
    fn list(&mut self, it: &Interner, v: &Value, o: &Origins) -> (r: Result<Core, LispErr>)
        requires
            old(self).wf(),
            old(self).sp.named(it@),
            *v is List,
        ensures
            old(self).kept(*final(self)),
            r is Ok ==> list_shaped(it@, old(self).arity(), *v, *o),
            r matches Err(e) ==> list_shaped(it@, old(self).arity(), *v, *o) ==> locals_overflow(e),
            r is Ok ==> final(self).locals() <= old(self).locals() + form_size(*v, *o),
            list_shaped(it@, old(self).arity(), *v, *o) && old(self).locals() + form_size(*v, *o) <= u32::MAX ==> r is Ok,
            r is Ok && call_form(it@, *v) ==> r matches Ok(Core::Call(_, _)),
            unbound(*old(self)) && v->List_0@.len() > 0 && flat_form(it@, *v, *o) ==> *final(self) == *old(self) && (
            r matches Ok(c) && flat(Expr { core: c, origin: o.origin }) && flat_size(Expr { core: c, origin: o.origin })
                < form_size(*v, *o)),
        decreases *v, 2nat,
    {
        let n = items_len(v, o);
        match head_sym(v) {
            Some(h) => {
                if h == self.sp.if_ {
                    return self.if_form(it, v, o);
                } else if h == self.sp.do_ {
                    proof {
                        lemma_sizes_from(*v, *o, 0, 1);
                    }
                    return match self.exprs(it, v, o, 1) {
                        Ok(es) => Ok(Core::Do(es)),
                        Err(e) => Err(e),
                    };
                } else if h == self.sp.let_ {
                    return self.let_form(it, v, o);
                } else if h == self.sp.loop_ {
                    return self.loop_form(it, v, o);
                } else if h == self.sp.recur {
                    return self.recur_form(it, v, o);
                } else if h == self.sp.fn_ {
                    return self.fn_form(it, v, o);
                } else if h == self.sp.quote {
                    if n != 2 {
                        return Err(err_at(o, copy_str("`quote` takes exactly one form")));
                    }
                    let (q, _) = child(v, o, 1);
                    return Ok(Core::Literal(q.clone()));
                } else if h == self.sp.set_cell {
                    if n != 3 {
                        return Err(err_at(o, copy_str("`set-cell!` takes a cell and a value")));
                    }
                    let (cv, co) = child(v, o, 1);
                    proof {
                        lemma_child_smaller(*v, 1);
                    }
                    proof {
                        lemma_child_size(*v, *o, 1);
                        lemma_child_size(*v, *o, 2);
                    }
                    let cell = match self.expr(it, cv, co) {
                        Ok(e) => e,
                        Err(e) => {
                            return Err(e);
                        },
                    };
                    let (vv, vo) = child(v, o, 2);
                    proof {
                        lemma_child_smaller(*v, 2);
                    }
                    let val = match self.expr(it, vv, vo) {
                        Ok(e) => e,
                        Err(e) => {
                            return Err(e);
                        },
                    };
                    proof {
                        assert(shaped_from(it@, old(self).arity(), *v, *o, 3));
                        assert(shaped_from(it@, old(self).arity(), *v, *o, 2));
                    }
                    return Ok(Core::SetCell(Box::new(cell), Box::new(val)));
                } else if h == self.sp.set_global {
                    return self.set_global_form(it, v, o);
                } else if h == self.sp.throw {
                    if n != 2 {
                        return Err(err_at(o, copy_str("`throw` takes exactly one value")));
                    }
                    let (tv, to) = child(v, o, 1);
                    proof {
                        lemma_child_smaller(*v, 1);
                    }
                    proof {
                        assert(shaped_from(it@, old(self).arity(), *v, *o, 2));
                    }
                    proof {
                        lemma_child_size(*v, *o, 1);
                    }
                    return match self.expr(it, tv, to) {
                        Ok(e) => Ok(Core::Throw(Box::new(e))),
                        Err(e) => Err(e),
                    };
                } else if h == self.sp.try_ {
                    return self.try_form(it, v, o);
                } else if h == self.sp.catch || h == self.sp.finally {
                    let name = it.name_or_empty(h.0);
                    return Err(err_at(o, cat3("`", name, "` is only valid inside `try`")));
                }
            },
            None => {},
        }
        if n == 0 {
            return Err(err_at(o, copy_str("a call form has lost its origins")));
        }
        let (fv, fo) = child(v, o, 0);
        proof {
            lemma_child_smaller(*v, 0);
        }
        proof {
            lemma_child_size(*v, *o, 0);
        }
        proof {
            lemma_child_size(*v, *o, 0);
        }
        let callee = match self.expr(it, fv, fo) {
            Ok(e) => e,
            Err(e) => {
                return Err(e);
            },
        };
        match self.exprs(it, v, o, 1) {
            Ok(args) => {
                let c = Core::Call(Box::new(callee), args);
                proof {
                    if unbound(*old(self)) && flat_form(it@, *v, *o) {
                        assert(flat_kids(it@, *v, *o, 1));
                        assert(flat(Expr { core: c, origin: o.origin }));
                    }
                }
                Ok(c)
            },
            Err(e) => Err(e),
        }
    }

    fn if_form(&mut self, it: &Interner, v: &Value, o: &Origins) -> (r: Result<Core, LispErr>)
        requires
            old(self).wf(),
            old(self).sp.named(it@),
        ensures
            old(self).kept(*final(self)),
            r is Ok ==> if_shaped(it@, old(self).arity(), *v, *o),
            r matches Err(e) ==> if_shaped(it@, old(self).arity(), *v, *o) ==> locals_overflow(e),
            r is Ok ==> final(self).locals() <= old(self).locals() + form_size(*v, *o),
            if_shaped(it@, old(self).arity(), *v, *o) && old(self).locals() + form_size(*v, *o) <= u32::MAX ==> r is Ok,
        decreases *v, 1nat,
    {
        let n = items_len(v, o);
        proof {
            lemma_shaped_from(it@, old(self).arity(), *v, *o, 1);
        }
        if n < 3 || n > 4 {
            return Err(err_at(o, copy_str("`if` takes a test, a then, and an optional else")));
        }
        proof {
            lemma_child_size(*v, *o, 1);
            lemma_child_size(*v, *o, 2);
            if n == 4 {
                lemma_child_size(*v, *o, 3);
            }
        }
        let (tv, to) = child(v, o, 1);
        proof {
            lemma_child_smaller(*v, 1);
        }
        let test = match self.expr(it, tv, to) {
            Ok(e) => e,
            Err(e) => {
                return Err(e);
            },
        };
        let (hv, ho) = child(v, o, 2);
        proof {
            lemma_child_smaller(*v, 2);
        }
        let then = match self.expr(it, hv, ho) {
            Ok(e) => e,
            Err(e) => {
                return Err(e);
            },
        };
        let other = if n == 4 {
            let (ev, eo) = child(v, o, 3);
            proof {
                lemma_child_smaller(*v, 3);
            }
            match self.expr(it, ev, eo) {
                Ok(e) => e,
                Err(e) => {
                    return Err(e);
                },
            }
        } else {
            // A missing else is `nil`, at the `if`'s own position.
            Expr { core: Core::Literal(Value::Nil), origin: o.origin }
        };
        Ok(Core::If(Box::new(test), Box::new(then), Box::new(other)))
    }

    /// The binding pairs of a `let` or `loop`, declared left to right: each
    /// initializer is resolved before its own name is in scope.
    fn bindings(&mut self, it: &Interner, word: &str, bv: &Value, bo: &Origins) -> (r: Result<
        (Vec<(u32, Expr)>, Vec<SymId>),
        LispErr,
    >)
        requires
            old(self).wf(),
            old(self).sp.named(it@),
        ensures
            old(self).kept(*final(self)),
            r matches Ok(b) ==> b.1@.len() == form_len(*bv, *bo) / 2 && b.0@.len() == b.1@.len(),
            r is Ok ==> bindings_shaped(it@, old(self).arity(), *bv, *bo, 0),
            r matches Err(e) ==> bindings_shaped(it@, old(self).arity(), *bv, *bo, 0) ==> locals_overflow(e),
            r is Ok ==> final(self).locals() <= old(self).locals() + sizes_from(*bv, *bo, 0),
            bindings_shaped(it@, old(self).arity(), *bv, *bo, 0) && old(self).locals() + sizes_from(*bv, *bo, 0) <= u32::MAX ==> r is Ok,
        decreases *bv, 1nat,
    {
        let n = items_len(bv, bo);
        if n % 2 != 0 {
            return Err(err_at(bo, copy_str("binding vector has a name with no value")));
        }
        let mut binds: Vec<(u32, Expr)> = Vec::new();
        let mut names: Vec<SymId> = Vec::new();
        let mut i: usize = 0;
        let ghost a = old(self).arity();
        proof {
            lemma_sizes_from(*bv, *bo, 0, 0);
        }
        while i < n
            invariant
                old(self).kept(*self),
                self.arity() == a,
                self.sp.named(it@),
                n == form_len(*bv, *bo),
                n % 2 == 0,
                i % 2 == 0,
                i <= n,
                names@.len() == i / 2,
                binds@.len() == names@.len(),
                bindings_shaped(it@, a, *bv, *bo, 0) == bindings_shaped(it@, a, *bv, *bo, i as int),
                self.locals() + sizes_from(*bv, *bo, i as int) <= old(self).locals() + sizes_from(*bv, *bo, 0),
                old(self).wf(),
            decreases n - i,
        {
            let (nv, no) = child(bv, bo, i);
            let name = match sym_of(nv) {
                Some(s) => s,
                None => {
                    return Err(err_at(no, cat3("`", word, cat(" binds symbols, not a ", kind_name(nv)).as_str())));
                },
            };
            let (iv, io) = child(bv, bo, i + 1);
            proof {
                lemma_child_smaller(*bv, i + 1);
                lemma_child_size(*bv, *bo, i as int);
                lemma_child_size(*bv, *bo, i + 1);
            }
            let init = match self.expr(it, iv, io) {
                Ok(e) => e,
                Err(e) => {
                    return Err(e);
                },
            };
            let id = match self.declare(name, no) {
                Ok(id) => id,
                Err(e) => {
                    return Err(e);
                },
            };
            binds.push((id, init));
            names.push(name);
            i = i + 2;
        }
        Ok((binds, names))
    }

    fn let_form(&mut self, it: &Interner, v: &Value, o: &Origins) -> (r: Result<Core, LispErr>)
        requires
            old(self).wf(),
            old(self).sp.named(it@),
        ensures
            old(self).kept(*final(self)),
            r is Ok ==> let_shaped(it@, old(self).arity(), *v, *o),
            r matches Err(e) ==> let_shaped(it@, old(self).arity(), *v, *o) ==> locals_overflow(e),
            r is Ok ==> final(self).locals() <= old(self).locals() + form_size(*v, *o),
            let_shaped(it@, old(self).arity(), *v, *o) && old(self).locals() + form_size(*v, *o) <= u32::MAX ==> r is Ok,
        decreases *v, 1nat,
    {
        let n = items_len(v, o);
        if n < 2 {
            return Err(err_at(o, copy_str("`let` takes a binding vector and a body")));
        }
        let (bv, bo) = child(v, o, 1);
        proof {
            lemma_child_smaller(*v, 1);
            lemma_child_size(*v, *o, 1);
            lemma_sizes_from(*bv, *bo, 0, 0);
        }
        if !matches!(bv, Value::Vec(_)) {
            return Err(err_kind(bo, "`let` takes a binding vector, not a ", bv));
        }
        self.push_scope();
        let (binds, _) = match self.bindings(it, "let", bv, bo) {
            Ok(b) => b,
            Err(e) => {
                self.pop_scope();
                return Err(e);
            },
        };
        let body = match self.exprs(it, v, o, 2) {
            Ok(b) => b,
            Err(e) => {
                self.pop_scope();
                return Err(e);
            },
        };
        self.pop_scope();
        Ok(Core::Let(binds, body))
    }

    /// `(loop [a init-a b init-b] body…)`: a `let` for the bindings, whose
    /// body calls an anonymous function taking those names. `recur` is then
    /// a tail call to that function, so tail position for `recur` is the one
    /// the compiler already decides for every call.
    fn loop_form(&mut self, it: &Interner, v: &Value, o: &Origins) -> (r: Result<Core, LispErr>)
        requires
            old(self).wf(),
            old(self).sp.named(it@),
        ensures
            old(self).kept(*final(self)),
            r is Ok ==> loop_shaped(it@, old(self).arity(), *v, *o),
            r matches Err(e) ==> loop_shaped(it@, old(self).arity(), *v, *o) ==> locals_overflow(e),
            r matches Ok(c) ==> resolved_loop(c, loop_arity_of(*v, *o), (form_len(*v, *o) - 2) as nat),
            r is Ok ==> final(self).locals() <= old(self).locals() + form_size(*v, *o),
            loop_shaped(it@, old(self).arity(), *v, *o) && old(self).locals() + form_size(*v, *o) <= u32::MAX ==> r is Ok,
        decreases *v, 1nat,
    {
        let n = items_len(v, o);
        if n < 2 {
            return Err(err_at(o, copy_str("`loop` takes a binding vector and a body")));
        }
        let (bv, bo) = child(v, o, 1);
        proof {
            lemma_child_smaller(*v, 1);
            lemma_child_size(*v, *o, 1);
            lemma_sizes_from(*bv, *bo, 0, 0);
        }
        if !matches!(bv, Value::Vec(_)) {
            return Err(err_kind(bo, "`loop` takes a binding vector, not a ", bv));
        }
        let origin = o.origin;
        self.push_scope();
        let (binds, names) = match self.bindings(it, "loop", bv, bo) {
            Ok(b) => b,
            Err(e) => {
                self.pop_scope();
                return Err(e);
            },
        };
        let arity = #[verifier::truncate] (names.len() as u32);
        let mut scope = FnScope::new(None);
        scope.loop_arity = Some(arity);
        let ghost outer = *self;
        let ghost fits = loop_shaped(it@, old(self).arity(), *v, *o) && old(self).locals() + form_size(*v, *o)
            <= u32::MAX;
        proof {
            if fits {
                assert(names@.len() + sizes_from(*v, *o, 2) < u32::MAX);
            }
        }
        self.fns.push(scope);
        let mut k: usize = 0;
        while k < names.len()
            invariant
                self.wf(),
                old(self).kept(outer),
                self.fns@.len() == outer.fns@.len() + 1,
                self.sp == outer.sp,
                forall|j: int|
                    0 <= j < outer.fns@.len() ==> #[trigger] self.fns@[j].loop_arity == outer.fns@[j].loop_arity,
                forall|j: int| 0 <= j < outer.fns@.len() ==> #[trigger] self.fns@[j].locals == outer.fns@[j].locals,
                self.arity() == Some(arity),
                self.locals() == k,
                k <= names@.len(),
                fits == (loop_shaped(it@, old(self).arity(), *v, *o) && old(self).locals() + form_size(*v, *o)
                    <= u32::MAX),
                fits ==> names@.len() + sizes_from(*v, *o, 2) < u32::MAX,
                fits ==> outer.locals() <= old(self).locals() + sizes_from(*bv, *bo, 0),
            decreases names@.len() - k,
        {
            match self.declare(names[k], o) {
                Ok(_) => {},
                Err(e) => {
                    let _ = self.pop_fn();
                    self.pop_scope();
                    return Err(e);
                },
            }
            k = k + 1;
        }
        let built = self.exprs(it, v, o, 2);
        let scope = self.pop_fn();
        proof {
            assert(outer.kept(*self));
        }
        self.pop_scope();
        let body = match built {
            Ok(b) => b,
            Err(e) => {
                return Err(e);
            },
        };
        let mut args: Vec<Expr> = Vec::new();
        let mut j: usize = 0;
        while j < binds.len()
            invariant
                j <= binds@.len(),
                args@.len() == j,
                forall|i: int| 0 <= i < j ==> (#[trigger] args@[i]).core == Core::Local(binds@[i].0),
            decreases binds@.len() - j,
        {
            args.push(Expr { core: Core::Local(binds[j].0), origin });
            j = j + 1;
        }
        let callee = Expr {
            core: Core::Fn(
                Box::new(
                    FnDef {
                        name: None,
                        params: arity,
                        variadic: false,
                        locals: scope.locals,
                        captures: scope.captures,
                        body,
                        origin,
                    },
                ),
            ),
            origin,
        };
        let mut call: Vec<Expr> = Vec::new();
        call.push(Expr { core: Core::Call(Box::new(callee), args), origin });
        Ok(Core::Let(binds, call))
    }

    /// `(recur e…)`: valid only as the innermost function's own re-entry,
    /// with the arity its `loop` binds.
    fn recur_form(&mut self, it: &Interner, v: &Value, o: &Origins) -> (r: Result<Core, LispErr>)
        requires
            old(self).wf(),
            old(self).sp.named(it@),
        ensures
            old(self).kept(*final(self)),
            r is Ok ==> recur_shaped(it@, old(self).arity(), *v, *o),
            r matches Err(e) ==> recur_shaped(it@, old(self).arity(), *v, *o) ==> locals_overflow(e),
            r is Ok ==> final(self).locals() <= old(self).locals() + form_size(*v, *o),
            recur_shaped(it@, old(self).arity(), *v, *o) && old(self).locals() + form_size(*v, *o) <= u32::MAX ==> r is Ok,
        decreases *v, 1nat,
    {
        let top = self.fns.len() - 1;
        let arity = match self.fns[top].loop_arity {
            Some(a) => a,
            None => {
                return Err(
                    err_at(
                        o,
                        copy_str(
                            "`recur` is only valid inside `loop`, and never across a `fn` boundary",
                        ),
                    ),
                );
            },
        };
        let n = items_len(v, o);
        let given: u64 = if n == 0 {
            0
        } else {
            (n - 1) as u64
        };
        if given != arity as u64 {
            let mut msg = copy_str("`recur` rebinds the ");
            let a = nat_to_text(arity as u64);
            push_str(&mut msg, a.as_str());
            push_str(&mut msg, " name(s) its `loop` binds, given ");
            let g = nat_to_text(given);
            push_str(&mut msg, g.as_str());
            return Err(err_at(o, msg));
        }
        match self.exprs(it, v, o, 1) {
            Ok(es) => Ok(Core::Recur(es)),
            Err(e) => Err(e),
        }
    }

    fn fn_form(&mut self, it: &Interner, v: &Value, o: &Origins) -> (r: Result<Core, LispErr>)
        requires
            old(self).wf(),
            old(self).sp.named(it@),
        ensures
            old(self).kept(*final(self)),
            r is Ok ==> fn_shaped(it@, *v, *o),
            r matches Err(e) ==> fn_shaped(it@, *v, *o) ==> locals_overflow(e),
            r is Ok ==> final(self).locals() <= old(self).locals() + form_size(*v, *o),
            fn_shaped(it@, *v, *o) && old(self).locals() + form_size(*v, *o) <= u32::MAX ==> r is Ok,
        decreases *v, 1nat,
    {
        let n = items_len(v, o);
        let mut at: usize = 1;
        let mut name: Option<SymId> = None;
        if n > 1 {
            let (nv, _) = child(v, o, 1);
            match sym_of(nv) {
                Some(s) => {
                    name = Some(s);
                    at = 2;
                },
                None => {},
            }
        }
        if at >= n {
            return Err(err_at(o, copy_str("`fn` takes a parameter vector and a body")));
        }
        let (pv, po) = child(v, o, at);
        proof {
            lemma_child_size(*v, *o, at as int);
            lemma_sizes_from(*pv, *po, 0, 0);
        }
        if !matches!(pv, Value::Vec(_)) {
            return Err(err_kind(po, "`fn` takes a parameter vector, not a ", pv));
        }
        self.fns.push(FnScope::new(name));
        let params = self.params(it, pv, po);
        let built = match params {
            Ok((count, variadic)) => match self.exprs(it, v, o, at + 1) {
                Ok(body) => Ok((count, variadic, body)),
                Err(e) => Err(e),
            },
            Err(e) => Err(e),
        };
        // Popped whether or not the body resolved, so an error does not leave
        // a scope behind that no longer exists.
        let scope = self.pop_fn();
        match built {
            Ok((count, variadic, body)) => Ok(
                Core::Fn(
                    Box::new(
                        FnDef {
                            name,
                            params: count,
                            variadic,
                            locals: scope.locals,
                            captures: scope.captures,
                            body,
                            origin: o.origin,
                        },
                    ),
                ),
            ),
            Err(e) => Err(e),
        }
    }

    /// `[a b & rest]`: one parameter list, optionally ending in `&` and one
    /// rest parameter. Parameters are declared first, so they hold local ids
    /// `0..params`.
    fn params(&mut self, it: &Interner, pv: &Value, po: &Origins) -> (r: Result<(u32, bool), LispErr>)
        requires
            old(self).wf(),
            old(self).sp.named(it@),
        ensures
            old(self).kept(*final(self)),
            r is Ok ==> params_shaped(it@, *pv, *po),
            r matches Err(e) ==> params_shaped(it@, *pv, *po) ==> locals_overflow(e),
            r is Ok ==> final(self).locals() <= old(self).locals() + form_len(*pv, *po),
            params_shaped(it@, *pv, *po) && old(self).locals() + form_len(*pv, *po) <= u32::MAX ==> r is Ok,
    {
        let n = items_len(pv, po);
        let ghost amp = Value::Sym(special(it@, "&"@));
        let mut count: u32 = 0;
        let mut i: usize = 0;
        while i < n
            invariant
                old(self).kept(*self),
                self.sp.named(it@),
                amp == Value::Sym(self.sp.rest),
                n == form_len(*pv, *po),
                n <= children_spec(*pv).len(),
                count <= i,
                i <= n,
                forall|j: int| 0 <= j < i ==> (#[trigger] children_spec(*pv)[j]) is Sym && children_spec(*pv)[j] != amp,
                self.locals() <= old(self).locals() + i,
                old(self).wf(),
            decreases n - i,
        {
            let (nv, no) = child(pv, po, i);
            let name = match sym_of(nv) {
                Some(s) => s,
                None => {
                    proof {
                        assert(!params_shaped(it@, *pv, *po));
                    }
                    return Err(err_kind(no, "parameters are symbols, not a ", nv));
                },
            };
            if name == self.sp.rest {
                let rest = if i + 1 < n {
                    let (rv, _) = child(pv, po, i + 1);
                    sym_of(rv)
                } else {
                    None
                };
                match rest {
                    Some(r) => {
                        if r != self.sp.rest && i + 2 == n {
                            let (_, ro) = child(pv, po, i + 1);
                            match self.declare(r, ro) {
                                Ok(_) => {},
                                Err(e) => {
                                    return Err(e);
                                },
                            }
                            proof {
                                assert forall|j: int| 0 <= j < n implies (#[trigger] children_spec(*pv)[j]) is Sym
                                    && (children_spec(*pv)[j] == amp ==> j + 2 == n && children_spec(*pv)[j + 1]
                                    != amp) by {
                                    if j == i + 1 {
                                        assert(children_spec(*pv)[j] == Value::Sym(r));
                                    }
                                }
                            }
                            return Ok((#[verifier::truncate] ((count as u64 + 1) as u32), true));
                        }
                    },
                    None => {},
                }
                proof {
                    if params_shaped(it@, *pv, *po) {
                        assert(children_spec(*pv)[i as int] == amp);
                        assert(i + 2 == n);
                        assert(children_spec(*pv)[i + 1] is Sym);
                    }
                }
                return Err(err_at(no, copy_str("`&` must be followed by exactly one rest parameter")));
            }
            match self.declare(name, no) {
                Ok(_) => {},
                Err(e) => {
                    return Err(e);
                },
            }
            count = #[verifier::truncate] ((count as u64 + 1) as u32);
            i = i + 1;
        }
        Ok((count, false))
    }

    fn set_global_form(&mut self, it: &Interner, v: &Value, o: &Origins) -> (r: Result<Core, LispErr>)
        requires
            old(self).wf(),
            old(self).sp.named(it@),
        ensures
            old(self).kept(*final(self)),
            r is Ok ==> set_global_shaped(it@, old(self).arity(), *v, *o),
            r matches Err(e) ==> set_global_shaped(it@, old(self).arity(), *v, *o) ==> locals_overflow(e),
            r is Ok ==> final(self).locals() <= old(self).locals() + form_size(*v, *o),
            set_global_shaped(it@, old(self).arity(), *v, *o) && old(self).locals() + form_size(*v, *o) <= u32::MAX ==> r is Ok,
        decreases *v, 1nat,
    {
        let n = items_len(v, o);
        if n != 3 {
            return Err(err_at(o, copy_str("`set-global!` takes a name and a value")));
        }
        let (nv, no) = child(v, o, 1);
        let name = match sym_of(nv) {
            Some(s) => s,
            None => {
                return Err(err_kind(no, "`set-global!` binds a symbol, not a ", nv));
            },
        };
        let (xv, xo) = child(v, o, 2);
        proof {
            lemma_child_smaller(*v, 2);
            lemma_child_size(*v, *o, 2);
            assert(shaped_from(it@, old(self).arity(), *v, *o, 3));
        }
        match self.expr(it, xv, xo) {
            Ok(e) => Ok(Core::SetGlobal(name, Box::new(e))),
            Err(e) => Err(e),
        }
    }

    fn try_form(&mut self, it: &Interner, v: &Value, o: &Origins) -> (r: Result<Core, LispErr>)
        requires
            old(self).wf(),
            old(self).sp.named(it@),
        ensures
            old(self).kept(*final(self)),
            r is Ok ==> try_shaped(it@, old(self).arity(), *v, *o, 1, false, false),
            r matches Err(e) ==> try_shaped(it@, old(self).arity(), *v, *o, 1, false, false) ==> locals_overflow(e),
            r is Ok ==> final(self).locals() <= old(self).locals() + form_size(*v, *o),
            try_shaped(it@, old(self).arity(), *v, *o, 1, false, false) && old(self).locals() + form_size(*v, *o) <= u32::MAX ==> r is Ok,
        decreases *v, 1nat,
    {
        let n = items_len(v, o);
        let mut body: Vec<Expr> = Vec::new();
        let mut catch: Option<(u32, Vec<Expr>)> = None;
        let mut finally: Option<Vec<Expr>> = None;
        let mut i: usize = 1;
        let ghost a = old(self).arity();
        let ghost fits = try_shaped(it@, a, *v, *o, 1, false, false) && old(self).locals() + form_size(*v, *o)
            <= u32::MAX;
        proof {
            lemma_sizes_from(*v, *o, 0, 1);
        }
        while i < n
            invariant
                old(self).kept(*self),
                self.arity() == a,
                self.sp.named(it@),
                n == form_len(*v, *o),
                1 <= i,
                try_shaped(it@, a, *v, *o, 1, false, false) == try_shaped(
                    it@,
                    a,
                    *v,
                    *o,
                    i as int,
                    catch is Some,
                    finally is Some,
                ),
                self.locals() + sizes_from(*v, *o, i as int) <= old(self).locals() + sizes_from(*v, *o, 1),
                sizes_from(*v, *o, 1) < form_size(*v, *o),
                fits == (try_shaped(it@, a, *v, *o, 1, false, false) && old(self).locals() + form_size(*v, *o)
                    <= u32::MAX),
                old(self).wf(),
            decreases n - i,
        {
            let (cv, co) = child(v, o, i);
            proof {
                lemma_child_smaller(*v, i as int);
                lemma_child_size(*v, *o, i as int);
                lemma_sizes_from(*cv, *co, 0, 1);
                if form_len(*cv, *co) > 1 {
                    lemma_child_size(*cv, *co, 1);
                }
            }
            let head = head_sym(cv);
            proof {
                assert(headed(it@, *cv, "catch"@) == (head == Some(self.sp.catch)));
                assert(headed(it@, *cv, "finally"@) == (head == Some(self.sp.finally)));
            }
            if head == Some(self.sp.catch) {
                if catch.is_some() {
                    return Err(err_at(co, copy_str("`try` takes at most one `catch`")));
                }
                if finally.is_some() {
                    return Err(err_at(co, copy_str("`finally` must be the last clause")));
                }
                let cn = items_len(cv, co);
                let bound = if cn > 1 {
                    let (bv, _) = child(cv, co, 1);
                    sym_of(bv)
                } else {
                    None
                };
                let bound = match bound {
                    Some(b) => b,
                    None => {
                        return Err(err_at(co, copy_str("`catch` binds the thrown value to one symbol")));
                    },
                };
                self.push_scope();
                let id = match self.declare(bound, co) {
                    Ok(id) => id,
                    Err(e) => {
                        self.pop_scope();
                        return Err(e);
                    },
                };
                let handler = self.exprs(it, cv, co, 2);
                self.pop_scope();
                match handler {
                    Ok(h) => {
                        catch = Some((id, h));
                    },
                    Err(e) => {
                        return Err(e);
                    },
                }
            } else if head == Some(self.sp.finally) {
                if finally.is_some() {
                    return Err(err_at(co, copy_str("`try` takes at most one `finally`")));
                }
                match self.exprs(it, cv, co, 1) {
                    Ok(f) => {
                        finally = Some(f);
                    },
                    Err(e) => {
                        return Err(e);
                    },
                }
            } else if catch.is_some() || finally.is_some() {
                return Err(
                    err_at(
                        co,
                        copy_str("everything after a `catch` or `finally` clause must be one too"),
                    ),
                );
            } else {
                match self.expr(it, cv, co) {
                    Ok(e) => body.push(e),
                    Err(e) => {
                        return Err(e);
                    },
                }
            }
            i = i + 1;
        }
        Ok(Core::Try(Box::new(TryForm { body, catch, finally })))
    }
}

/// Forms to core AST. Every symbol comes out resolved and every core form
/// shape-checked; nothing about slots has happened yet.
pub fn resolve(forms: &Vec<LocatedForm>, interner: &mut Interner) -> (r: Result<FnDef, LispErr>)
    ensures
        grows(old(interner)@, final(interner)@),
        r matches Ok(def) ==> def.params == 0 && !def.variadic && def.name is None
            && def.body@.len() == forms@.len(),
        r is Ok ==> forms_shaped(final(interner)@, forms@),
        r matches Err(e) ==> forms_shaped(final(interner)@, forms@) ==> locals_overflow(e),
        forms_shaped(final(interner)@, forms@) && forms_size(forms@, 0) <= u32::MAX ==> r is Ok,
        r matches Ok(def) ==> forall|i: int|
            0 <= i < forms@.len() && call_form(final(interner)@, forms@[i].root) ==> (#[trigger] def.body@[i]).core is Call,
        flat_forms(final(interner)@, forms@) ==> (r matches Ok(def) && all_flat(def.body@, 0) && flat_sizes(def.body@, 0)
            + def.body@.len() <= forms_size(forms@, 0)),
{
    let sp = Specials::new(interner);
    let mut fns: Vec<FnScope> = Vec::new();
    fns.push(FnScope::new(None));
    let mut r = Resolver { sp, fns };
    proof {
        assert forall|s: SymId| #[trigger] newest_binding(r.fns@[0].scopes@, s) is None by {
            let sc = r.fns@[0].scopes@;
            assert(sc.len() == 1);
            assert(sc.last()@.len() == 0);
            assert(newest_in_block(sc.last()@, s) is None);
            assert(sc.drop_last().len() == 0);
            assert(newest_binding(sc.drop_last(), s) is None);
        }
    }
    let ghost start = r;
    let ghost ff = flat_forms(interner@, forms@);
    let mut body: Vec<Expr> = Vec::new();
    let mut i: usize = 0;
    while i < forms.len()
        invariant
            ff == flat_forms(interner@, forms@),
            ff ==> r == start && unbound(r) && all_flat(body@, 0) && flat_sizes(body@, 0) + body@.len() + forms_size(
                forms@,
                i as int,
            ) <= forms_size(forms@, 0),
            r.wf(),
            r.fns@.len() == 1,
            r.arity() is None,
            r.sp.named(interner@),
            grows(old(interner)@, interner@),
            i <= forms@.len(),
            body@.len() == i,
            forall|j: int| 0 <= j < i ==> #[trigger] shaped(interner@, None, forms@[j].root, forms@[j].origins),
            r.locals() + forms_size(forms@, i as int) <= forms_size(forms@, 0),
            forall|j: int| 0 <= j < i && call_form(interner@, forms@[j].root) ==> (#[trigger] body@[j]).core is Call,
        decreases forms@.len() - i,
    {
        let ghost before = body@;
        proof {
            if ff {
                assert(flat_form(interner@, forms@[i as int].root, forms@[i as int].origins));
                assert(forms_size(forms@, i as int) == form_size(forms@[i as int].root, forms@[i as int].origins)
                    + forms_size(forms@, i + 1));
            }
        }
        match r.expr(interner, &forms[i].root, &forms[i].origins) {
            Ok(e) => {
                body.push(e);
                proof {
                    lemma_flat_push(before, e, 0);
                }
            },
            Err(e) => {
                return Err(e);
            },
        }
        i = i + 1;
    }
    let scope = r.fns.remove(0);
    let origin = if forms.len() > 0 {
        forms[0].origins.origin
    } else {
        SpanOrigin::Unknown
    };
    Ok(
        FnDef {
            name: None,
            params: 0,
            variadic: false,
            locals: scope.locals,
            captures: scope.captures,
            body,
            origin,
        },
    )
}

// --- lowering -----------------------------------------------------------------------

/// Compile a file's forms into a fresh chunk whose proto 0 is the top level.
pub fn compile(forms: &Vec<LocatedForm>, interner: &mut Interner) -> (r: Result<Chunk, LispErr>)
    ensures
        grows(old(interner)@, final(interner)@),
        r matches Ok(c) ==> c.wf() && c.slots_inside() && c.targets_inside() && c.protos@.len() >= 1,
        r matches Ok(c) ==> (forms@.len() > 0 && call_form(final(interner)@, forms@.last().root) ==> ends_in_tail_call(
            c.protos@[0],
        )),
        flat_forms(final(interner)@, forms@) && forms_size(forms@, 0) + 1 <= u32::MAX ==> r is Ok,
        r is Ok ==> forms_shaped(final(interner)@, forms@),
        r matches Err(e) ==> forms_shaped(final(interner)@, forms@) ==> locals_overflow(e) || lowering_refusal(e),
        r matches Err(e) ==> forms_shaped(final(interner)@, forms@) && forms_size(forms@, 0) <= u32::MAX
            ==> lowering_refusal(e),
{
    let mut chunk = Chunk { protos: Vec::new() };
    match compile_into(&mut chunk, forms, interner) {
        Ok(_) => Ok(chunk),
        Err(e) => Err(e),
    }
}

/// Compile into an existing chunk, appending, and return the index of the
/// top-level proto this call added. Existing indices never move, so a
/// closure from an earlier input keeps naming a valid proto; a refused
/// compile leaves the chunk exactly as it was.
pub fn compile_into(chunk: &mut Chunk, forms: &Vec<LocatedForm>, interner: &mut Interner) -> (r:
    Result<u32, LispErr>)
    ensures
        grows(old(interner)@, final(interner)@),
        r is Err ==> final(chunk).protos@ == old(chunk).protos@,
        r is Ok ==> forms_shaped(final(interner)@, forms@),
        r matches Err(e) ==> forms_shaped(final(interner)@, forms@) ==> locals_overflow(e) || lowering_refusal(e),
        r matches Err(e) ==> forms_shaped(final(interner)@, forms@) && forms_size(forms@, 0) <= u32::MAX
            ==> lowering_refusal(e),
        r is Ok ==> (forms@.len() > 0 && call_form(final(interner)@, forms@.last().root) ==> ends_in_tail_call(
            final(chunk).protos@[old(chunk).protos@.len() as int],
        )),
        flat_forms(final(interner)@, forms@) && forms_size(forms@, 0) + 1 <= u32::MAX ==> r is Ok,
        r matches Ok(idx) ==> {
            &&& idx == old(chunk).protos@.len() as u32
            &&& final(chunk).protos@.len() > old(chunk).protos@.len()
            &&& forall|j: int|
                0 <= j < old(chunk).protos@.len() ==> #[trigger] final(chunk).protos@[j]
                    == old(chunk).protos@[j]
        },
        old(chunk).wf() ==> final(chunk).wf(),
        old(chunk).slots_inside() ==> final(chunk).slots_inside(),
        old(chunk).targets_inside() ==> final(chunk).targets_inside(),
{
    let top = match resolve(forms, interner) {
        Ok(t) => t,
        Err(e) => {
            return Err(e);
        },
    };
    let base = chunk.protos.len();
    match lower_from(&top, base) {
        Ok(mut protos) => {
            let ghost before = chunk.protos@;
            chunk.protos.append(&mut protos);
            Ok(#[verifier::truncate] (base as u32))
        },
        Err(e) => Err(e),
    }
}

/// Core AST to a chunk. Slots come out of one monotonic counter per
/// function, shared by bindings and temporaries and never reused.
pub fn lower(top: &FnDef) -> (r: Result<Chunk, LispErr>)
    ensures
        r matches Err(e) ==> lowering_refusal(e),
        all_flat(top.body@, 0) && top.params + 1 + top.body@.len() + flat_sizes(top.body@, 0) <= u32::MAX ==> r is Ok,
        r matches Ok(c) ==> c.wf() && c.slots_inside() && c.targets_inside() && c.protos@.len() >= 1,
{
    match lower_from(top, 0) {
        Ok(protos) => Ok(Chunk { protos }),
        Err(e) => Err(e),
    }
}

/// The protos lowering `top` produces, numbered from `base` on.
fn lower_from(top: &FnDef, base: usize) -> (r: Result<Vec<Proto>, LispErr>)
    ensures
        r matches Ok(ps) ==> ps@.len() >= 1 && forall|j: int|
            0 <= j < ps@.len() ==> (#[trigger] ps@[j]).wf() && ps@[j].slots_inside() && ps@[j].targets_inside(),
        r matches Err(e) ==> lowering_refusal(e),
        r matches Ok(ps) ==> (top.body@.len() > 0 && top.body@.last().core is Call ==> ends_in_tail_call(ps@[0])),
        all_flat(top.body@, 0) && top.params + 1 + top.body@.len() + flat_sizes(top.body@, 0) <= u32::MAX ==> r is Ok,
{
    let mut lo = Lower { protos: Vec::new(), err: None, base };
    lo.proto(top, Vec::new());
    match lo.err {
        Some(e) => Err(e),
        None => {
            let mut out: Vec<Proto> = Vec::new();
            let mut rest = lo.protos;
            let n = rest.len();
            let mut i: usize = 0;
            let ghost all = rest@;
            while i < n
                invariant
                    n == all.len(),
                    rest@ == all.skip(i as int),
                    i <= n,
                    out@.len() == i,
                    forall|j: int|
                        0 <= j < all.len() ==> (#[trigger] all[j]) is Some && all[j]->Some_0.wf()
                            && all[j]->Some_0.slots_inside() && all[j]->Some_0.targets_inside(),
                    forall|j: int|
                        0 <= j < out@.len() ==> (#[trigger] out@[j]).wf() && out@[j].slots_inside()
                            && out@[j].targets_inside(),
                    forall|j: int| 0 <= j < out@.len() ==> Some(#[trigger] out@[j]) == all[j],
                decreases n - i,
            {
                let p = rest.remove(0);
                proof {
                    assert(all.skip(i as int)[0] == all[i as int]);
                    assert(all.skip(i as int).skip(1) =~= all.skip(i + 1));
                }
                match p {
                    Some(p) => out.push(p),
                    None => {
                        assert(false);
                    },
                }
                i = i + 1;
            }
            Ok(out)
        },
    }
}

/// The protos a lowering has produced. An index is reserved before its body
/// is lowered, so a proto's number is its source order.
struct Lower {
    protos: Vec<Option<Proto>>,
    /// The first refusal, kept until the whole tree has been walked.
    err: Option<LispErr>,
    /// The index the first proto of this lowering will have in its chunk.
    base: usize,
}

/// `h` names one of the special forms the resolver handles itself.
pub open spec fn special_head(names: Seq<Seq<char>>, h: SymId) -> bool {
    ||| h == special(names, "if"@)
    ||| h == special(names, "do"@)
    ||| h == special(names, "let"@)
    ||| h == special(names, "loop"@)
    ||| h == special(names, "recur"@)
    ||| h == special(names, "fn"@)
    ||| h == special(names, "quote"@)
    ||| h == special(names, "set-cell!"@)
    ||| h == special(names, "set-global!"@)
    ||| h == special(names, "throw"@)
    ||| h == special(names, "try"@)
    ||| h == special(names, "catch"@)
    ||| h == special(names, "finally"@)
}

/// A form that is a call: a non-empty list not headed by a special form's
/// name.
pub open spec fn call_form(names: Seq<Seq<char>>, v: Value) -> bool {
    v matches Value::List(l) && l@.len() > 0 && !(l@[0] matches Value::Sym(h) && special_head(names, h))
}

/// A function's code ends by tail-calling and returning what the call
/// gave: its instruction before the last is a `TailCall`.
pub open spec fn ends_in_tail_call(p: Proto) -> bool {
    p.code@.len() >= 2 && p.code@[p.code@.len() - 2] is TailCall
}

/// A core tree lowering cannot refuse, given room for its slots: leaves
/// that are not locals, and calls and `do` blocks of such trees.
pub open spec fn flat(e: Expr) -> bool
    decreases e, 0int,
{
    match e.core {
        Core::Literal(_) | Core::Global(_) | Core::Capture(_) | Core::SelfFn => true,
        Core::Call(f, args) => flat(*f) && all_flat(args@, 0),
        Core::Do(es) => all_flat(es@, 0),
        _ => false,
    }
}

/// Every tree of `es` from `from` on is flat.
pub open spec fn all_flat(es: Seq<Expr>, from: int) -> bool
    decreases es, es.len() - from,
{
    if from < 0 || from >= es.len() {
        true
    } else {
        flat(es[from]) && all_flat(es, from + 1)
    }
}

/// The slots lowering a flat tree reserves at most: a call's window, and a
/// scratch slot per form of a `do`.
pub open spec fn flat_size(e: Expr) -> nat
    decreases e, 0int,
{
    match e.core {
        Core::Call(f, args) => args@.len() + 1 + flat_size(*f) + flat_sizes(args@, 0),
        Core::Do(es) => es@.len() + flat_sizes(es@, 0),
        _ => 0,
    }
}

/// The slots the trees of `es` from `from` on reserve at most.
pub open spec fn flat_sizes(es: Seq<Expr>, from: int) -> nat
    decreases es, es.len() - from,
{
    if from < 0 || from >= es.len() {
        0
    } else {
        flat_size(es[from]) + flat_sizes(es, from + 1)
    }
}

/// A top-level form that resolves to a flat tree: a constant, a name, or
/// a call whose head and arguments are such forms, with an origin for each.
pub open spec fn flat_form(names: Seq<Seq<char>>, v: Value, o: Origins) -> bool
    decreases v, 1nat, 0int,
{
    match v {
        Value::List(l) => l@.len() == 0 || (call_form(names, v) && form_len(v, o) == l@.len() && flat_kids(
            names,
            v,
            o,
            0,
        )),
        Value::Vec(_) | Value::Dict(_) | Value::Fn(_) | Value::Cell(_) | Value::Handle(_) | Value::Buffer(_) => false,
        _ => true,
    }
}

/// Every child of `v` from `from` on is a flat form.
pub open spec fn flat_kids(names: Seq<Seq<char>>, v: Value, o: Origins, from: int) -> bool
    decreases v, 0nat, form_len(v, o) - from,
{
    if from < 0 || from >= form_len(v, o) {
        true
    } else {
        proof {
            lemma_child_smaller(v, from);
        }
        flat_form(names, children_spec(v)[from], o.children@[from]) && flat_kids(names, v, o, from + 1)
    }
}

/// Every form of a unit is flat.
pub open spec fn flat_forms(names: Seq<Seq<char>>, forms: Seq<LocatedForm>) -> bool {
    forall|i: int| 0 <= i < forms.len() ==> #[trigger] flat_form(names, forms[i].root, forms[i].origins)
}

/// Flatness and size of a sequence grown at its end.
proof fn lemma_flat_push(es: Seq<Expr>, x: Expr, k: int)
    requires
        0 <= k <= es.len(),
    ensures
        all_flat(es.push(x), k) == (all_flat(es, k) && flat(x)),
        flat_sizes(es.push(x), k) == flat_sizes(es, k) + flat_size(x),
    decreases es.len() - k,
{
    if k < es.len() {
        lemma_flat_push(es, x, k + 1);
        assert(es.push(x)[k] == es[k]);
    } else {
        assert(es.push(x)[k] == x);
        assert(all_flat(es.push(x), k + 1));
        assert(flat_sizes(es.push(x), k + 1) == 0);
    }
}

/// The refusals lowering can give: a limit of the 32-bit encoding, a
/// `recur` out of place, or a core tree the resolver could not have built.
pub open spec fn lowering_refusal(e: LispErr) -> bool {
    ||| e.msg@ == "a function needs more slots than fit in 32 bits"@
    ||| e.msg@ == "a call needs more slots than fit in 32 bits"@
    ||| e.msg@
        == "`recur` must be in tail position, because it re-enters the loop rather than returning a value to its caller"@
    ||| e.msg@
        == "`recur` cannot cross a `try`: re-entering the loop would skip the cleanup and leave the handler installed"@
    ||| e.msg@ == "a local has no slot"@
    ||| e.msg@ == "a jump was patched outside its function"@
}

/// What a lowering has refused so far is a lowering refusal.
spec fn refused_well(l: Lower) -> bool {
    l.err matches Some(e) ==> lowering_refusal(e)
}

/// Lowering only appends finished protos and never touches one already there.
spec fn lowered(a: Lower, b: Lower) -> bool {
    &&& refused_well(a) ==> refused_well(b)
    &&& b.base == a.base
    &&& a.protos@.len() <= b.protos@.len()
    &&& forall|j: int| 0 <= j < a.protos@.len() ==> #[trigger] b.protos@[j] == a.protos@[j]
    &&& forall|j: int|
        a.protos@.len() <= j < b.protos@.len() ==> (#[trigger] b.protos@[j]) is Some
            && b.protos@[j]->Some_0.wf()
    &&& a.err is Some ==> b.err is Some
    &&& b.err is None ==> forall|j: int|
        a.protos@.len() <= j < b.protos@.len() ==> (#[trigger] b.protos@[j])->Some_0.slots_inside()
            && b.protos@[j]->Some_0.targets_inside()
}

impl Lower {
    /// The first error wins: the first misplaced `recur` is the one to fix.
    fn fail(&mut self, e: LispErr)
        requires
            lowering_refusal(e),
        ensures
            refused_well(*old(self)) ==> refused_well(*final(self)),
            final(self).protos@ == old(self).protos@,
            final(self).base == old(self).base,
            final(self).err is Some,
    {
        if self.err.is_none() {
            self.err = Some(e);
        }
    }

    fn proto(&mut self, def: &FnDef, captures: Vec<CaptureSrc>) -> (r: u32)
        ensures
            lowered(*old(self), *final(self)),
            final(self).protos@.len() > old(self).protos@.len(),
            def.body@.len() > 0 && def.body@.last().core is Call ==> (final(self).protos@[old(
                self,
            ).protos@.len() as int] matches Some(p) && ends_in_tail_call(p)),
            all_flat(def.body@, 0) && old(self).err is None && def.params + 1 + def.body@.len() + flat_sizes(
                def.body@,
                0,
            ) <= u32::MAX ==> final(self).err is None,
        decreases def, 2nat,
    {
        let idx = self.protos.len();
        self.protos.push(None);
        let ghost reserved = *self;
        let mut f = FnLower::new(def, self);
        let dst = f.reserve(1, self, def.origin);
        f.body(self, &def.body, dst, true, def.origin);
        // The return belongs to the expression whose value it returns.
        let exit = if def.body.len() > 0 {
            def.body[def.body.len() - 1].origin
        } else {
            def.origin
        };
        f.emit(Instr::Return { src: dst }, exit);
        let p = Proto {
            name: def.name,
            params: def.params,
            variadic: def.variadic,
            slots: f.next,
            code: f.code,
            lines: f.lines,
            consts: f.consts,
            captures,
        };
        self.protos.set(idx, Some(p));
        #[verifier::truncate] ((self.base as u128 + idx as u128) as u32)
    }
}

/// A jump instruction pointed at `target`; any other instruction as it is.
spec fn retargeted(i: Instr, target: u32) -> Instr {
    match i {
        Instr::Jump { .. } => Instr::Jump { target },
        Instr::JumpUnless { cond, .. } => Instr::JumpUnless { cond, target },
        Instr::PushFinally { .. } => Instr::PushFinally { target },
        Instr::PushHandler { err, .. } => Instr::PushHandler { catch: target, err },
        other => other,
    }
}

/// The first constant from `k` on that no program can tell from `v`, or the
/// table's length where there is none.
spec fn first_same_const_from(consts: Seq<Value>, v: Value, k: int) -> int
    decreases consts.len() - k,
{
    if k < 0 || k >= consts.len() {
        consts.len() as int
    } else if crate::value::same_const_spec(consts[k], v) {
        k
    } else {
        first_same_const_from(consts, v, k + 1)
    }
}

/// The index a constant shares: the first one it cannot be told from, or a
/// new entry at the end.
spec fn first_same_const(consts: Seq<Value>, v: Value) -> int {
    first_same_const_from(consts, v, 0)
}

/// The first constant that cannot be told from `v` is one, and it is the
/// first; or there is none.
proof fn lemma_first_same_const(consts: Seq<Value>, v: Value, k: int)
    requires
        0 <= k <= consts.len(),
    ensures
        k <= first_same_const_from(consts, v, k) <= consts.len(),
        first_same_const_from(consts, v, k) < consts.len() ==> crate::value::same_const_spec(
            consts[first_same_const_from(consts, v, k)],
            v,
        ),
    decreases consts.len() - k,
{
    if k < consts.len() && !crate::value::same_const_spec(consts[k], v) {
        lemma_first_same_const(consts, v, k + 1);
    }
}

/// A bound that holds of an instruction holds of every larger one.
proof fn lemma_below_grows(i: Instr, n: u32, m: u32)
    requires
        names_slots_below(i, n),
        n <= m,
    ensures
        names_slots_below(i, m),
{
}

/// `b` is `a` with code after it: an instruction already emitted is never
/// rewritten, wherever its index still fits the 32-bit jump encoding.
spec fn grew(a: Seq<Instr>, b: Seq<Instr>) -> bool {
    &&& a.len() <= b.len()
    &&& b.len() <= u32::MAX ==> forall|k: int| 0 <= k < a.len() ==> #[trigger] b[k] == a[k]
}

proof fn lemma_grew_trans(a: Seq<Instr>, b: Seq<Instr>, c: Seq<Instr>)
    requires
        grew(a, b),
        grew(b, c),
    ensures
        grew(a, c),
{
    if c.len() <= u32::MAX {
        assert forall|k: int| 0 <= k < a.len() implies #[trigger] c[k] == a[k] by {
            assert(c[k] == b[k]);
        }
    }
}

proof fn lemma_grew_push(a: Seq<Instr>, b: Seq<Instr>, i: Instr)
    requires
        grew(a, b),
    ensures
        grew(a, b.push(i)),
{
    if b.push(i).len() <= u32::MAX {
        assert forall|k: int| 0 <= k < a.len() implies #[trigger] b.push(i)[k] == a[k] by {
            assert(b.push(i)[k] == b[k]);
        }
    }
}

/// A patch of an instruction emitted at `j`, at or after `a`'s end, keeps
/// what `a` holds.
proof fn lemma_grew_patch(a: Seq<Instr>, b: Seq<Instr>, c: Seq<Instr>, j: int, at: u32)
    requires
        grew(a, b),
        a.len() <= j < b.len(),
        at == j as u32,
        c.len() == b.len(),
        forall|k: int| 0 <= k < b.len() && k != at ==> #[trigger] c[k] == b[k],
    ensures
        grew(a, c),
{
    if c.len() <= u32::MAX {
        assert(at as int == j);
        assert forall|k: int| 0 <= k < a.len() implies #[trigger] c[k] == a[k] by {
            assert(c[k] == b[k]);
        }
    }
}

/// `b` keeps every constant of `a` at its index.
spec fn consts_kept(a: Seq<Value>, b: Seq<Value>) -> bool {
    a.len() <= b.len() && forall|k: int| 0 <= k < a.len() ==> #[trigger] b[k] == a[k]
}

/// What a leaf lowered to stays true as the constant table grows.
proof fn lemma_leaf_done_grows(c: Core, dst: u32, i: Instr, a: Seq<Value>, b: Seq<Value>, slots: Seq<u32>)
    requires
        leaf_done(c, dst, i, a, slots),
        consts_kept(a, b),
    ensures
        leaf_done(c, dst, i, b, slots),
{
    if let Core::Literal(v) = c {
        if let Instr::Const { dst: d, k } = i {
            assert(b[k as int] == a[k as int]);
        }
    }
}

/// A core form that lowers to one instruction.
spec fn is_leaf(c: Core) -> bool {
    c is Literal || c is Local || c is Capture || c is SelfFn || c is Global
}

/// `i` is what leaf `c` lowers to into `dst`, read against the function's
/// constants and slots: a literal loads a constant no program can tell from
/// it, and every other leaf is its one instruction.
spec fn leaf_done(c: Core, dst: u32, i: Instr, consts: Seq<Value>, slots: Seq<u32>) -> bool {
    match c {
        Core::Literal(v) => i matches Instr::Const { dst: d, k } && d == dst && k < consts.len() && (consts[k as int]
            == v || crate::value::same_const_spec(consts[k as int], v)),
        Core::Local(id) => id < slots.len() ==> i == Instr::Move { dst, src: slots[id as int] },
        Core::Capture(x) => i == Instr::GetCapture { dst, idx: x },
        Core::SelfFn => i == Instr::GetSelf { dst },
        Core::Global(s) => i == Instr::GetGlobal { dst, name: s },
        _ => false,
    }
}

/// The code of an `if` whose branches are leaves ends in the test's jump, the
/// `then` leaf, the jump over `else`, and the `else` leaf, in that order.
spec fn if_tail(code: Seq<Instr>, cond: u32, dst: u32, then: Core, other: Core, consts: Seq<Value>, slots: Seq<u32>) -> bool {
    let l = code.len() - 4;
    &&& l >= 0
    &&& code[l] == Instr::JumpUnless { cond, target: (l + 3) as u32 }
    &&& leaf_done(then, dst, code[l + 1], consts, slots)
    &&& code[l + 2] == Instr::Jump { target: (l + 4) as u32 }
    &&& leaf_done(other, dst, code[l + 3], consts, slots)
}

/// Every argument of a call is a leaf.
spec fn all_leaves(args: Seq<Expr>) -> bool {
    forall|k: int| 0 <= k < args.len() ==> is_leaf((#[trigger] args[k]).core)
}

/// The code of a call whose callee and arguments are leaves, from index
/// `start` on: the callee into the window's first slot `base`, each argument
/// into the slot after the one before, in order, and then the call itself.
spec fn call_code(
    code: Seq<Instr>,
    start: int,
    base: u32,
    f: Core,
    args: Seq<Expr>,
    consts: Seq<Value>,
    slots: Seq<u32>,
) -> bool {
    &&& code.len() == start + args.len() + 2
    &&& leaf_done(f, base, code[start], consts, slots)
    &&& forall|k: int|
        0 <= k < args.len() ==> leaf_done(
            (#[trigger] args[k]).core,
            (base + 1 + k) as u32,
            code[start + 1 + k],
            consts,
            slots,
        )
}

/// The code of a body of leaves, from index `start` on: each form but the
/// last into a scratch slot of its own, counted up from `next`, and the
/// last into `dst`, in order.
spec fn body_code(
    code: Seq<Instr>,
    start: int,
    next: u32,
    dst: u32,
    exprs: Seq<Expr>,
    consts: Seq<Value>,
    slots: Seq<u32>,
) -> bool {
    &&& exprs.len() > 0
    &&& code.len() == start + exprs.len()
    &&& forall|k: int|
        0 <= k < exprs.len() - 1 ==> leaf_done(
            (#[trigger] exprs[k]).core,
            (next + k) as u32,
            code[start + k],
            consts,
            slots,
        )
    &&& leaf_done(exprs.last().core, dst, code[start + exprs.len() - 1], consts, slots)
}

/// The one instruction a leaf of the core tree lowers to, into `dst`.
spec fn leaf_code(c: Core, dst: u32, consts: Seq<Value>, slots: Seq<u32>) -> Option<Instr> {
    match c {
        Core::Literal(v) => Some(Instr::Const { dst, k: first_same_const(consts, v) as u32 }),
        Core::Local(id) => if id < slots.len() {
            Some(Instr::Move { dst, src: slots[id as int] })
        } else {
            None
        },
        Core::Capture(i) => Some(Instr::GetCapture { dst, idx: i }),
        Core::SelfFn => Some(Instr::GetSelf { dst }),
        Core::Global(s) => Some(Instr::GetGlobal { dst, name: s }),
        _ => None,
    }
}

/// The instruction a form's code ends with, where its kind fixes it: a call
/// in tail position outside any handler region reuses the frame, and
/// `recur` always does; the window of a call starts at the first free slot.
spec fn last_code(c: Core, dst: u32, tail: bool, regions: u32, next: u32) -> Option<Instr> {
    match c {
        Core::Call(_, args) => if tail && regions == 0 {
            Some(Instr::TailCall { base: next, argc: args@.len() as u32 })
        } else {
            Some(Instr::Call { dst, base: next, argc: args@.len() as u32 })
        },
        Core::Recur(args) => Some(Instr::TailCall { base: next, argc: args@.len() as u32 }),
        Core::SetGlobal(name, _) => Some(Instr::SetGlobal { name, src: dst }),
        Core::SetCell(_, _) => Some(Instr::SetCell { cell: next, src: dst }),
        Core::Throw(_) => Some(Instr::Throw { src: next }),
        _ => None,
    }
}

struct FnLower {
    code: Vec<Instr>,
    lines: Vec<SpanOrigin>,
    consts: Vec<Value>,
    /// Local id to slot, filled in at the binding, read at every use.
    slots: Vec<u32>,
    next: u32,
    /// Handler regions open here. A call inside one is never a tail call:
    /// the handler record names this frame.
    regions: u32,
}

impl FnLower {
    spec fn wf(&self) -> bool {
        self.code@.len() == self.lines@.len()
    }

    /// Every instruction emitted so far names only slots already allocated,
    /// and so does every local's slot (all of them zero while nothing is).
    spec fn inside(&self) -> bool {
        &&& forall|k: int| 0 <= k < self.code@.len() ==> #[trigger] names_slots_below(self.code@[k], self.next)
        &&& forall|k: int|
            0 <= k < self.code@.len() ==> (#[trigger] jump_target(self.code@[k]) matches Some(t) ==> (t as int)
                <= self.code@.len())
        &&& forall|i: int|
            0 <= i < self.slots@.len() ==> #[trigger] self.slots@[i] < self.next || (self.next == 0
                && self.slots@[i] == 0)
    }

    /// A function with nothing emitted yet: its parameters hold the first
    /// slots, one each in order, and every other local waits for its binding.
    fn new(def: &FnDef, lo: &mut Lower) -> (r: FnLower)
        ensures
            r.wf(),
            r.inside(),
            r.regions == 0,
            lowered(*old(lo), *final(lo)),
            final(lo).err == old(lo).err,
            r.code@.len() == 0,
            r.consts@.len() == 0,
            r.next == def.params,
            r.slots@.len() == def.locals,
            forall|j: int| 0 <= j < def.locals ==> #[trigger] r.slots@[j] == (if j < def.params {
                j as u32
            } else {
                0
            }),
    {
        let mut slots: Vec<u32> = Vec::new();
        let mut i: u32 = 0;
        while i < def.locals
            invariant
                i <= def.locals,
                slots@.len() == i,
                forall|j: int| 0 <= j < slots@.len() ==> #[trigger] slots@[j] == (if j < def.params {
                    j as u32
                } else {
                    0
                }),
            decreases def.locals - i,
        {
            slots.push(if i < def.params {
                i
            } else {
                0
            });
            i = i + 1;
        }
        FnLower {
            code: Vec::new(),
            lines: Vec::new(),
            consts: Vec::new(),
            slots,
            next: def.params,
            regions: 0,
        }
    }

    /// The only place an instruction is created, which keeps `lines`
    /// parallel to `code` by construction.
    fn emit(&mut self, i: Instr, o: SpanOrigin) -> (r: u32)
        requires
            old(self).wf(),
        ensures
            final(self).wf(),
            final(self).code@ == old(self).code@.push(i),
            final(self).lines@ == old(self).lines@.push(o),
            final(self).next == old(self).next,
            final(self).regions == old(self).regions,
            final(self).slots@ == old(self).slots@,
            final(self).consts@ == old(self).consts@,
            r == old(self).code@.len() as u32,
            old(self).inside() && names_slots_below(i, old(self).next) && (jump_target(i) matches Some(t) ==> t
                == 0) ==> final(self).inside(),
    {
        let at = self.code.len();
        self.code.push(i);
        self.lines.push(o);
        #[verifier::truncate] (at as u32)
    }

    fn here(&self) -> (r: u32)
        ensures
            r <= self.code@.len(),
            self.code@.len() <= u32::MAX ==> r == self.code@.len(),
    {
        if self.code.len() <= u32::MAX as usize {
            self.code.len() as u32
        } else {
            u32::MAX
        }
    }

    fn reserve(&mut self, n: u32, lo: &mut Lower, o: SpanOrigin) -> (r: u32)
        requires
            old(self).wf(),
            n >= 1,
        ensures
            final(self).wf(),
            final(self).code@ == old(self).code@,
            final(self).regions == old(self).regions,
            final(self).slots@ == old(self).slots@,
            final(self).consts@ == old(self).consts@,
            lowered(*old(lo), *final(lo)),
            r == old(self).next,
            final(self).next >= old(self).next,
            final(lo).err is None ==> final(self).next == old(self).next + n,
            old(self).next + n <= u32::MAX ==> final(self).next == old(self).next + n && final(lo).err == old(lo).err,
            old(self).inside() ==> final(self).inside(),
    {
        let s = self.next;
        match self.next.checked_add(n) {
            Some(x) => {
                self.next = x;
                proof {
                    assert forall|k: int| 0 <= k < self.code@.len() && names_slots_below(old(self).code@[k], s) implies
                        #[trigger] names_slots_below(self.code@[k], self.next) by {
                        lemma_below_grows(self.code@[k], s, self.next);
                    }
                }
            },
            None => {
                lo.fail(LispErr::at_origin(o, copy_str("a function needs more slots than fit in 32 bits")));
            },
        }
        s
    }

    /// The slot local `id` was bound to; an id the function never handed
    /// out is refused.
    fn slot(&self, lo: &mut Lower, id: u32, o: SpanOrigin) -> (r: u32)
        ensures
            lowered(*old(lo), *final(lo)),
            id < self.slots@.len() ==> r == self.slots@[id as int] && final(lo).err == old(lo).err,
            id >= self.slots@.len() ==> r == 0 && final(lo).err is Some,
            self.inside() && self.next > 0 ==> r < self.next || final(lo).err is Some,
    {
        if (id as usize) < self.slots.len() {
            self.slots[id as usize]
        } else {
            lo.fail(LispErr::at_origin(o, copy_str("a local has no slot")));
            0
        }
    }

    fn bind(&mut self, id: u32, s: u32)
        requires
            old(self).wf(),
        ensures
            final(self).slots@ == (if id < old(self).slots@.len() {
                old(self).slots@.update(id as int, s)
            } else {
                old(self).slots@
            }),
            final(self).consts@ == old(self).consts@,
            final(self).wf(),
            final(self).code@ == old(self).code@,
            final(self).regions == old(self).regions,
            final(self).next == old(self).next,
            old(self).inside() && s < old(self).next ==> final(self).inside(),
    {
        if (id as usize) < self.slots.len() {
            self.slots.set(id as usize, s);
        }
    }

    /// Point a forward jump at `target`.
    fn patch(&mut self, lo: &mut Lower, at: u32, target: u32, o: SpanOrigin)
        requires
            old(self).wf(),
        ensures
            at < old(self).code@.len() ==> final(self).code@ == old(self).code@.update(
                at as int,
                retargeted(old(self).code@[at as int], target),
            ) && final(lo).err == old(lo).err,
            at >= old(self).code@.len() ==> final(self).code@ == old(self).code@ && final(lo).err is Some,
            final(self).consts@ == old(self).consts@,
            final(self).wf(),
            final(self).code@.len() == old(self).code@.len(),
            final(self).regions == old(self).regions,
            final(self).next == old(self).next,
            final(self).slots@ == old(self).slots@,
            lowered(*old(lo), *final(lo)),
            old(self).inside() && target <= old(self).code@.len() ==> final(self).inside(),
    {
        let i = at as usize;
        if i >= self.code.len() {
            lo.fail(LispErr::at_origin(o, copy_str("a jump was patched outside its function")));
            return;
        }
        let patched = match self.code[i] {
            Instr::Jump { .. } => Instr::Jump { target },
            Instr::JumpUnless { cond, .. } => Instr::JumpUnless { cond, target },
            Instr::PushFinally { .. } => Instr::PushFinally { target },
            Instr::PushHandler { err, .. } => Instr::PushHandler { catch: target, err },
            other => other,
        };
        assert(names_slots_below(patched, self.next) == names_slots_below(self.code@[i as int], self.next));
        assert(jump_target(patched) is Some ==> jump_target(patched) == Some(target));
        self.code.set(i, patched);
    }

    /// Constants are deduplicated by `same_const`: two share an entry only
    /// when no program can tell them apart.
    fn konst(&mut self, v: &Value, dst: u32, o: SpanOrigin)
        requires
            old(self).wf(),
        ensures
            final(self).code@ == old(self).code@.push(
                Instr::Const { dst, k: first_same_const(old(self).consts@, *v) as u32 },
            ),
            final(self).lines@ == old(self).lines@.push(o),
            final(self).consts@ == (if first_same_const(old(self).consts@, *v) < old(self).consts@.len() {
                old(self).consts@
            } else {
                old(self).consts@.push(*v)
            }),
            final(self).wf(),
            final(self).regions == old(self).regions,
            final(self).next == old(self).next,
            final(self).slots@ == old(self).slots@,
            old(self).inside() && dst < old(self).next ==> final(self).inside(),
    {
        let n = self.consts.len();
        let mut k: usize = 0;
        while k < n
            invariant
                n == self.consts@.len(),
                k <= n,
                self.consts@ == old(self).consts@,
                first_same_const(self.consts@, *v) == first_same_const_from(self.consts@, *v, k as int),
            ensures
                self.consts@ == old(self).consts@,
                first_same_const(self.consts@, *v) == k as int,
            decreases n - k,
        {
            if same_const(&self.consts[k], v) {
                break;
            }
            k = k + 1;
        }
        if k == n {
            self.consts.push(v.clone());
        }
        self.emit(Instr::Const { dst, k: #[verifier::truncate] (k as u32) }, o);
    }

    /// An implicit `do`: every form but the last runs for effect, the last
    /// supplies the value. An empty body is `nil`.
    #[verifier::loop_isolation(false)]
    fn body(&mut self, lo: &mut Lower, exprs: &Vec<Expr>, dst: u32, tail: bool, o: SpanOrigin)
        requires
            old(self).wf(),
            old(lo).err is None ==> old(self).inside() && dst < old(self).next,
        ensures
            final(self).wf(),
            final(self).regions == old(self).regions,
            lowered(*old(lo), *final(lo)),
            final(self).next >= old(self).next,
            final(lo).err is None ==> final(self).inside(),
            grew(old(self).code@, final(self).code@),
            final(self).code@.len() > old(self).code@.len(),
            exprs@.len() == 0 ==> final(self).code@ == old(self).code@.push(
                Instr::Const { dst, k: first_same_const(old(self).consts@, Value::Nil) as u32 },
            ),
            all_flat(exprs@, 0) && old(lo).err is None && old(self).next + exprs@.len() + flat_sizes(exprs@, 0)
                <= u32::MAX ==> final(lo).err is None && final(self).next <= old(self).next + exprs@.len()
                + flat_sizes(exprs@, 0),
            exprs@.len() > 0 && exprs@.last().core is Call ==> (final(self).code@.last() is TailCall <==> (tail
                && old(self).regions == 0)),
            all_leaves(exprs@) && exprs@.len() > 0 && old(self).next + exprs@.len() <= u32::MAX
                && final(self).consts@.len() <= u32::MAX ==> body_code(
                final(self).code@,
                old(self).code@.len() as int,
                old(self).next,
                dst,
                exprs@,
                final(self).consts@,
                final(self).slots@,
            ),
        decreases exprs@, 1nat,
    {
        let ghost c0 = self.code@;
        let n = exprs.len();
        if n == 0 {
            self.konst(&Value::Nil, dst, o);
            proof {
                lemma_grew_push(c0, c0, self.code@.last());
                assert(c0.push(self.code@.last()) =~= self.code@);
            }
            return;
        }
        let mut i: usize = 0;
        let ghost leafy = all_leaves(exprs@) && old(self).next + exprs@.len() <= u32::MAX;
        let ghost start = c0.len() as int;
        let ghost fl = all_flat(exprs@, 0) && old(lo).err is None && old(self).next + exprs@.len() + flat_sizes(
            exprs@,
            0,
        ) <= u32::MAX;
        while i < n - 1
            invariant
                fl == (all_flat(exprs@, 0) && old(lo).err is None && old(self).next + exprs@.len() + flat_sizes(
                    exprs@,
                    0,
                ) <= u32::MAX),
                fl ==> lo.err is None && all_flat(exprs@, i as int) && self.next + (n - i) + flat_sizes(
                    exprs@,
                    i as int,
                ) <= old(self).next + n + flat_sizes(exprs@, 0),
                leafy == (all_leaves(exprs@) && old(self).next + exprs@.len() <= u32::MAX),
                start == old(self).code@.len(),
                i <= n - 1,
                leafy ==> self.next == old(self).next + i && self.code@.len() == start + i && self.slots@ == old(
                    self,
                ).slots@,
                leafy && self.consts@.len() <= u32::MAX ==> forall|k: int|
                    0 <= k < i ==> leaf_done(
                        (#[trigger] exprs@[k]).core,
                        (old(self).next + k) as u32,
                        self.code@[start + k],
                        self.consts@,
                        self.slots@,
                    ),
                self.wf(),
                self.regions == old(self).regions,
                lowered(*old(lo), *lo),
                n == exprs@.len(),
                self.next >= old(self).next,
                lo.err is None ==> self.inside() && dst < self.next,
                grew(c0, self.code@),
            decreases n - i,
        {
            proof {
                assert(decreases_to!(exprs@ => exprs@[i as int]));
            }
            let scratch = self.reserve(1, lo, o);
            let ghost c1 = self.code@;
            let ghost k1 = self.consts@;
            let ghost n1 = self.next;
            self.expr(lo, &exprs[i], scratch, false);
            proof {
                if fl {
                    assert(flat(exprs@[i as int]) && all_flat(exprs@, i + 1));
                    assert(flat_sizes(exprs@, i as int) == flat_size(exprs@[i as int]) + flat_sizes(exprs@, i + 1));
                    assert(self.next <= n1 + flat_size(exprs@[i as int]));
                }
            }
            proof {
                lemma_grew_trans(c0, c1, self.code@);
                if leafy {
                    assert(is_leaf(exprs@[i as int].core));
                    if self.consts@.len() <= u32::MAX {
                        assert forall|k: int| 0 <= k < i + 1 implies leaf_done(
                            (#[trigger] exprs@[k]).core,
                            (old(self).next + k) as u32,
                            self.code@[start + k],
                            self.consts@,
                            self.slots@,
                        ) by {
                            if k < i {
                                lemma_leaf_done_grows(
                                    exprs@[k].core,
                                    (old(self).next + k) as u32,
                                    c1[start + k],
                                    k1,
                                    self.consts@,
                                    self.slots@,
                                );
                            }
                        }
                    }
                }
            }
            i = i + 1;
        }
        proof {
            assert(decreases_to!(exprs@ => exprs@[n - 1]));
        }
        let ghost c1 = self.code@;
        let ghost k1 = self.consts@;
        proof {
            if fl {
                assert(flat(exprs@[n - 1]));
                assert(flat_sizes(exprs@, n - 1) == flat_size(exprs@[n - 1]) + flat_sizes(exprs@, n as int));
            }
        }
        self.expr(lo, &exprs[n - 1], dst, tail);
        proof {
            lemma_grew_trans(c0, c1, self.code@);
            if leafy && self.consts@.len() <= u32::MAX {
                assert(is_leaf(exprs@[n - 1].core));
                assert forall|k: int| 0 <= k < n - 1 implies leaf_done(
                    (#[trigger] exprs@[k]).core,
                    (old(self).next + k) as u32,
                    self.code@[start + k],
                    self.consts@,
                    self.slots@,
                ) by {
                    lemma_leaf_done_grows(
                        exprs@[k].core,
                        (old(self).next + k) as u32,
                        c1[start + k],
                        k1,
                        self.consts@,
                        self.slots@,
                    );
                }
            }
        }
    }

    #[verifier::loop_isolation(false)]
    #[verifier::rlimit(60)]
    fn expr(&mut self, lo: &mut Lower, e: &Expr, dst: u32, tail: bool)
        requires
            old(self).wf(),
            old(lo).err is None ==> old(self).inside() && dst < old(self).next,
        ensures
            final(self).wf(),
            final(self).regions == old(self).regions,
            lowered(*old(lo), *final(lo)),
            final(self).next >= old(self).next,
            final(lo).err is None ==> final(self).inside(),
            grew(old(self).code@, final(self).code@),
            final(self).code@.len() > old(self).code@.len(),
            leaf_code(e.core, dst, old(self).consts@, old(self).slots@) matches Some(i) ==> final(self).code@
                == old(self).code@.push(i),
            last_code(e.core, dst, tail, old(self).regions, old(self).next) matches Some(i) ==> final(self).code@.last()
                == i,
            e.core is Recur && (!tail || old(self).regions != 0) ==> final(lo).err is Some,
            e.core is Fn ==> final(self).code@.last() is Closure && final(self).code@.last()->Closure_dst == dst,
            is_leaf(e.core) ==> final(self).slots@ == old(self).slots@ && consts_kept(old(self).consts@, final(self).consts@)
                && final(self).code@ == old(self).code@.push(final(self).code@.last()) && final(self).next == old(
                self,
            ).next,
            is_leaf(e.core) && old(self).consts@.len() <= u32::MAX ==> leaf_done(
                e.core,
                dst,
                final(self).code@.last(),
                final(self).consts@,
                final(self).slots@,
            ),
            e.core matches Core::If(_, then, other) ==> (is_leaf(then.core) && is_leaf(other.core)
                && final(self).code@.len() < u32::MAX && final(self).consts@.len() <= u32::MAX ==> if_tail(
                final(self).code@,
                old(self).next,
                dst,
                then.core,
                other.core,
                final(self).consts@,
                final(self).slots@,
            )),
        flat(*e) && old(lo).err is None && old(self).next + flat_size(*e) <= u32::MAX ==> final(lo).err is None
            && final(self).next <= old(self).next + flat_size(*e),
        e.core matches Core::Do(xs) ==> (all_leaves(xs@) && xs@.len() > 0 && old(self).next + xs@.len() <= u32::MAX
            && final(self).consts@.len() <= u32::MAX ==> body_code(
            final(self).code@,
            old(self).code@.len() as int,
            old(self).next,
            dst,
            xs@,
            final(self).consts@,
            final(self).slots@,
        )),
        e.core matches Core::Call(f, args) ==> (is_leaf(f.core) && all_leaves(args@) && old(self).next + args@.len()
            + 1 <= u32::MAX && final(self).consts@.len() <= u32::MAX ==> call_code(
            final(self).code@,
            old(self).code@.len() as int,
            old(self).next,
            f.core,
            args@,
            final(self).consts@,
            final(self).slots@,
        )),
        decreases e, 3nat,
    {
        let o = e.origin;
        let ghost c0 = self.code@;
        match &e.core {
            Core::Literal(v) => {
                let ghost k0 = old(self).consts@;
                self.konst(v, dst, o);
                proof {
                    lemma_grew_push(c0, c0, self.code@.last());
                    lemma_first_same_const(k0, *v, 0);
                }
            },
            Core::Local(id) => {
                // `dst` is always a fresh allocation, so it never coincides
                // with a local's slot.
                let src = self.slot(lo, *id, o);
                self.emit(Instr::Move { dst, src }, o);
                proof {
                    lemma_grew_push(c0, c0, self.code@.last());
                }
            },
            Core::Capture(i) => {
                self.emit(Instr::GetCapture { dst, idx: *i }, o);
                proof {
                    lemma_grew_push(c0, c0, self.code@.last());
                }
            },
            Core::SelfFn => {
                self.emit(Instr::GetSelf { dst }, o);
                proof {
                    lemma_grew_push(c0, c0, self.code@.last());
                }
            },
            Core::Global(s) => {
                self.emit(Instr::GetGlobal { dst, name: *s }, o);
                proof {
                    lemma_grew_push(c0, c0, self.code@.last());
                }
            },
            Core::If(test, then, other) => {
                let cond = self.reserve(1, lo, o);
                self.expr(lo, test, cond, false);
                let ghost c1 = self.code@;
                let jump_else = self.emit(Instr::JumpUnless { cond, target: 0 }, o);
                proof {
                    lemma_grew_push(c0, c1, self.code@.last());
                    assert(c1.push(self.code@.last()) =~= self.code@);
                }
                let ghost c2 = self.code@;
                self.expr(lo, then, dst, tail);
                proof {
                    lemma_grew_trans(c0, c2, self.code@);
                }
                let ghost c3 = self.code@;
                let jump_end = self.emit(Instr::Jump { target: 0 }, o);
                proof {
                    lemma_grew_push(c0, c3, self.code@.last());
                    assert(c3.push(self.code@.last()) =~= self.code@);
                }
                let els = self.here();
                let ghost c4 = self.code@;
                self.patch(lo, jump_else, els, o);
                proof {
                    lemma_grew_patch(c0, c4, self.code@, c1.len() as int, jump_else);
                }
                let ghost c5 = self.code@;
                let ghost k5 = self.consts@;
                self.expr(lo, other, dst, tail);
                proof {
                    lemma_grew_trans(c0, c5, self.code@);
                }
                let end = self.here();
                let ghost c6 = self.code@;
                self.patch(lo, jump_end, end, o);
                proof {
                    lemma_grew_patch(c0, c6, self.code@, c3.len() as int, jump_end);
                    if is_leaf(then.core) && is_leaf(other.core) && self.code@.len() < u32::MAX && self.consts@.len()
                        <= u32::MAX {
                        let l = c1.len() as int;
                        assert(c3.len() == l + 2);
                        assert(c5.len() == l + 3);
                        assert(self.code@.len() == l + 4);
                        assert(jump_else == l as u32);
                        assert(els == (l + 3) as u32);
                        assert(jump_end == (l + 2) as u32);
                        assert(end == (l + 4) as u32);
                        assert(self.code@[l] == Instr::JumpUnless { cond, target: (l + 3) as u32 });
                        assert(self.code@[l + 2] == Instr::Jump { target: (l + 4) as u32 });
                        assert(self.code@[l + 1] == c3[l + 1]);
                        assert(self.code@[l + 3] == c6[l + 3]);
                        lemma_leaf_done_grows(then.core, dst, c3[l + 1], k5, self.consts@, self.slots@);
                    }
                }
            },
            Core::Do(es) => self.body(lo, es, dst, tail, o),
            Core::Let(binds, es) => {
                let mut i: usize = 0;
                while i < binds.len()
                    invariant
                        self.wf(),
                        self.regions == old(self).regions,
                        lowered(*old(lo), *lo),
                        self.next >= old(self).next,
                        lo.err is None ==> self.inside() && dst < self.next,
                        grew(c0, self.code@),
                    decreases binds@.len() - i,
                {
                    proof {
                        assert(decreases_to!(binds@ => binds@[i as int]));
                        assert(decreases_to!(binds@[i as int] => binds@[i as int].1));
                    }
                    let s = self.reserve(1, lo, o);
                    let ghost c1 = self.code@;
                    self.expr(lo, &binds[i].1, s, false);
                    proof {
                        lemma_grew_trans(c0, c1, self.code@);
                    }
                    self.bind(binds[i].0, s);
                    i = i + 1;
                }
                let ghost c1 = self.code@;
                self.body(lo, es, dst, tail, o);
                proof {
                    lemma_grew_trans(c0, c1, self.code@);
                }
            },
            Core::Fn(def) => {
                // Capture sources name slots of the enclosing frame, so they are
                // translated here rather than inside the nested function.
                let mut captures: Vec<CaptureSrc> = Vec::new();
                let mut i: usize = 0;
                while i < def.captures.len()
                    invariant
                        lowered(*old(lo), *lo),
                        self.next >= old(self).next,
                        lo.err is None ==> self.inside() && dst < self.next,
                    decreases def.captures@.len() - i,
                {
                    let c = match def.captures[i] {
                        CaptureSpec::Local(id) => CaptureSrc::Local(self.slot(lo, id, o)),
                        CaptureSpec::Capture(k) => CaptureSrc::Capture(k),
                        CaptureSpec::SelfFn => CaptureSrc::SelfFn,
                    };
                    captures.push(c);
                    i = i + 1;
                }
                let proto = lo.proto(def, captures);
                self.emit(Instr::Closure { dst, proto }, o);
                proof {
                    lemma_grew_push(c0, c0, self.code@.last());
                }
            },
            Core::Call(callee, args) => {
                if args.len() >= u32::MAX as usize {
                    lo.fail(LispErr::at_origin(o, copy_str("a call needs more slots than fit in 32 bits")));
                }
                let argc = #[verifier::truncate] (args.len() as u32);
                // The whole window is reserved before anything is lowered into
                // it, so a nested call allocates above it.
                let width = if argc < u32::MAX {
                    argc + 1
                } else {
                    u32::MAX
                };
                let base = self.reserve(width, lo, o);
                let ghost c1 = self.code@;
                let ghost leafy = is_leaf(callee.core) && all_leaves(args@) && old(self).next + args@.len() + 1
                    <= u32::MAX;
                let ghost start = c0.len() as int;
                let ghost fl = flat(*e) && old(lo).err is None && old(self).next + flat_size(*e) <= u32::MAX;
                self.expr(lo, callee, base, false);
                proof {
                    lemma_grew_trans(c0, c1, self.code@);
                }
                let mut i: usize = 0;
                while i < args.len()
                    invariant
                        fl == (flat(*e) && old(lo).err is None && old(self).next + flat_size(*e) <= u32::MAX),
                        fl ==> lo.err is None && all_flat(args@, i as int) && self.next + flat_sizes(args@, i as int)
                            <= old(self).next + flat_size(*e),
                        leafy == (is_leaf(callee.core) && all_leaves(args@) && old(self).next + args@.len() + 1
                            <= u32::MAX),
                        start == old(self).code@.len(),
                        base == old(self).next,
                        i <= args@.len(),
                        leafy ==> self.code@.len() == start + 1 + i && (self.consts@.len() <= u32::MAX ==> (leaf_done(
                            callee.core,
                            base,
                            self.code@[start],
                            self.consts@,
                            self.slots@,
                        ) && forall|k: int|
                            0 <= k < i ==> leaf_done(
                                (#[trigger] args@[k]).core,
                                (base + 1 + k) as u32,
                                self.code@[start + 1 + k],
                                self.consts@,
                                self.slots@,
                            ))),
                        self.wf(),
                        self.regions == old(self).regions,
                        lowered(*old(lo), *lo),
                        self.next >= old(self).next,
                        argc == args@.len() as u32,
                        lo.err is None ==> args@.len() < u32::MAX && self.inside() && dst < self.next && base
                            + argc < self.next,
                        grew(c0, self.code@),
                    decreases args@.len() - i,
                {
                    proof {
                        assert(decreases_to!(args@ => args@[i as int]));
                    }
                    let at = #[verifier::truncate] ((base as u128 + 1 + i as u128) as u32);
                    let ghost c2 = self.code@;
                    let ghost k2 = self.consts@;
                    let ghost s2 = self.slots@;
                    let ghost n2 = self.next;
                    proof {
                        if fl {
                            assert(flat(args@[i as int]) && all_flat(args@, i + 1));
                            assert(flat_sizes(args@, i as int) == flat_size(args@[i as int]) + flat_sizes(args@, i + 1));
                        }
                    }
                    self.expr(lo, &args[i], at, false);
                    proof {
                        lemma_grew_trans(c0, c2, self.code@);
                        if leafy {
                            assert(is_leaf(args@[i as int].core));
                            assert(at == base + 1 + i);
                            if self.consts@.len() <= u32::MAX {
                                assert(self.code@ == c2.push(self.code@.last()));
                                lemma_leaf_done_grows(callee.core, base, c2[start], k2, self.consts@, s2);
                                assert forall|k: int| 0 <= k < i + 1 implies leaf_done(
                                    (#[trigger] args@[k]).core,
                                    (base + 1 + k) as u32,
                                    self.code@[start + 1 + k],
                                    self.consts@,
                                    self.slots@,
                                ) by {
                                    if k < i {
                                        lemma_leaf_done_grows(
                                            args@[k].core,
                                            (base + 1 + k) as u32,
                                            c2[start + 1 + k],
                                            k2,
                                            self.consts@,
                                            s2,
                                        );
                                    }
                                }
                            }
                        }
                    }
                    i = i + 1;
                }
                let ghost c2 = self.code@;
                if tail && self.regions == 0 {
                    self.emit(Instr::TailCall { base, argc }, o);
                } else {
                    self.emit(Instr::Call { dst, base, argc }, o);
                }
                proof {
                    lemma_grew_push(c0, c2, self.code@.last());
                    assert(c2.push(self.code@.last()) =~= self.code@);
                }
            },
            Core::SetCell(cell, val) => {
                let c = self.reserve(1, lo, o);
                let ghost c1 = self.code@;
                self.expr(lo, cell, c, false);
                proof {
                    lemma_grew_trans(c0, c1, self.code@);
                }
                // The form's value is the value written, so it goes straight
                // into `dst`.
                let ghost c2 = self.code@;
                self.expr(lo, val, dst, false);
                proof {
                    lemma_grew_trans(c0, c2, self.code@);
                }
                let ghost c3 = self.code@;
                self.emit(Instr::SetCell { cell: c, src: dst }, o);
                proof {
                    lemma_grew_push(c0, c3, self.code@.last());
                    assert(c3.push(self.code@.last()) =~= self.code@);
                }
            },
            Core::SetGlobal(name, val) => {
                self.expr(lo, val, dst, false);
                let ghost c1 = self.code@;
                self.emit(Instr::SetGlobal { name: *name, src: dst }, o);
                proof {
                    lemma_grew_push(c0, c1, self.code@.last());
                    assert(c1.push(self.code@.last()) =~= self.code@);
                }
            },
            Core::Throw(v) => {
                let src = self.reserve(1, lo, o);
                let ghost c1 = self.code@;
                self.expr(lo, v, src, false);
                proof {
                    lemma_grew_trans(c0, c1, self.code@);
                }
                let ghost c2 = self.code@;
                self.emit(Instr::Throw { src }, o);
                proof {
                    lemma_grew_push(c0, c2, self.code@.last());
                    assert(c2.push(self.code@.last()) =~= self.code@);
                }
            },
            Core::Try(t) => self.try_form(lo, t, dst, tail, o),
            Core::Recur(args) => {
                if !tail {
                    lo.fail(
                        LispErr::at_origin(
                            o,
                            copy_str(
                                "`recur` must be in tail position, because it re-enters the loop rather than returning a value to its caller",
                            ),
                        ),
                    );
                } else if self.regions != 0 {
                    lo.fail(
                        LispErr::at_origin(
                            o,
                            copy_str(
                                "`recur` cannot cross a `try`: re-entering the loop would skip the cleanup and leave the handler installed",
                            ),
                        ),
                    );
                }
                if args.len() >= u32::MAX as usize {
                    lo.fail(LispErr::at_origin(o, copy_str("a call needs more slots than fit in 32 bits")));
                }
                let argc = #[verifier::truncate] (args.len() as u32);
                let width = if argc < u32::MAX {
                    argc + 1
                } else {
                    u32::MAX
                };
                let base = self.reserve(width, lo, o);
                let ghost c1 = self.code@;
                self.emit(Instr::GetSelf { dst: base }, o);
                proof {
                    lemma_grew_push(c0, c1, self.code@.last());
                    assert(c1.push(self.code@.last()) =~= self.code@);
                }
                let mut i: usize = 0;
                while i < args.len()
                    invariant
                        self.wf(),
                        self.regions == old(self).regions,
                        lowered(*old(lo), *lo),
                        self.next >= old(self).next,
                        argc == args@.len() as u32,
                        lo.err is None ==> args@.len() < u32::MAX && self.inside() && dst < self.next && base
                            + argc < self.next,
                        grew(c0, self.code@),
                        (!tail || old(self).regions != 0) ==> lo.err is Some,
                    decreases args@.len() - i,
                {
                    proof {
                        assert(decreases_to!(args@ => args@[i as int]));
                    }
                    let at = #[verifier::truncate] ((base as u128 + 1 + i as u128) as u32);
                    let ghost c2 = self.code@;
                    self.expr(lo, &args[i], at, false);
                    proof {
                        lemma_grew_trans(c0, c2, self.code@);
                    }
                    i = i + 1;
                }
                let ghost c2 = self.code@;
                self.emit(Instr::TailCall { base, argc }, o);
                proof {
                    lemma_grew_push(c0, c2, self.code@.last());
                    assert(c2.push(self.code@.last()) =~= self.code@);
                }
            },
        }
    }

    /// Two nested handler regions, with `finally` emitted twice: once on the
    /// normal path, once as the path the VM enters while unwinding. The catch
    /// region sits inside the finally region, so a throw from the catch body
    /// still runs the cleanup. Each record is popped exactly once: by
    /// `POPHANDLER` on the path where nothing was thrown, or by the VM when it
    /// dispatches to the record.
    fn try_form(&mut self, lo: &mut Lower, t: &TryForm, dst: u32, tail: bool, o: SpanOrigin)
        requires
            old(self).wf(),
            old(lo).err is None ==> old(self).inside() && dst < old(self).next,
        ensures
            final(self).wf(),
            final(self).regions == old(self).regions,
            lowered(*old(lo), *final(lo)),
            final(self).next >= old(self).next,
            final(lo).err is None ==> final(self).inside(),
            grew(old(self).code@, final(self).code@),
            final(self).code@.len() > old(self).code@.len(),
        decreases t, 2nat,
    {
        let ghost c0 = self.code@;
        let ghost mut jf: int = 0;
        let ghost mut jc: int = 0;
        let start_regions = self.regions;
        let fin = match &t.finally {
            Some(_) => {
                self.regions = if self.regions < u32::MAX { self.regions + 1 } else { u32::MAX };
                proof {
                    jf = self.code@.len() as int;
                }
                let at = self.emit(Instr::PushFinally { target: 0 }, o);
                proof {
                    lemma_grew_push(c0, c0, self.code@.last());
                }
                Some(at)
            },
            None => None,
        };
        let cat = match &t.catch {
            Some((id, _)) => {
                let err = self.reserve(1, lo, o);
                self.bind(*id, err);
                self.regions = if self.regions < u32::MAX { self.regions + 1 } else { u32::MAX };
                let ghost c1 = self.code@;
                proof {
                    jc = self.code@.len() as int;
                }
                let at = self.emit(Instr::PushHandler { catch: 0, err }, o);
                proof {
                    lemma_grew_push(c0, c1, self.code@.last());
                    assert(c1.push(self.code@.last()) =~= self.code@);
                }
                Some(at)
            },
            None => None,
        };
        assert(fin matches Some(p) ==> p == jf as u32 && c0.len() <= jf < self.code@.len());
        assert(cat matches Some(p) ==> p == jc as u32 && c0.len() <= jc < self.code@.len());
        let ghost c2 = self.code@;
        self.body(lo, &t.body, dst, tail, o);
        proof {
            lemma_grew_trans(c0, c2, self.code@);
        }
        match (cat, &t.catch) {
            (Some(push), Some((_, handler))) => {
                let ghost c3 = self.code@;
                self.emit(Instr::PopHandler, o);
                proof {
                    lemma_grew_push(c0, c3, self.code@.last());
                    assert(c3.push(self.code@.last()) =~= self.code@);
                }
                self.regions = if self.regions > 0 { self.regions - 1 } else { 0 };
                let ghost c4 = self.code@;
                let over = self.emit(Instr::Jump { target: 0 }, o);
                proof {
                    lemma_grew_push(c0, c4, self.code@.last());
                    assert(c4.push(self.code@.last()) =~= self.code@);
                }
                let entry = self.here();
                let ghost c5 = self.code@;
                self.patch(lo, push, entry, o);
                proof {
                    lemma_grew_patch(c0, c5, self.code@, jc, push);
                }
                let ghost c6 = self.code@;
                self.body(lo, handler, dst, tail, o);
                proof {
                    lemma_grew_trans(c0, c6, self.code@);
                }
                let done = self.here();
                let ghost c7 = self.code@;
                self.patch(lo, over, done, o);
                proof {
                    lemma_grew_patch(c0, c7, self.code@, c4.len() as int, over);
                }
            },
            _ => {},
        }
        match (fin, &t.finally) {
            (Some(push), Some(cleanup)) => {
                let ghost c3 = self.code@;
                self.emit(Instr::PopHandler, o);
                proof {
                    lemma_grew_push(c0, c3, self.code@.last());
                    assert(c3.push(self.code@.last()) =~= self.code@);
                }
                self.regions = if self.regions > 0 { self.regions - 1 } else { 0 };
                // The cleanup's value is discarded on both paths.
                let normal = self.reserve(1, lo, o);
                let ghost c4 = self.code@;
                self.body(lo, cleanup, normal, false, o);
                proof {
                    lemma_grew_trans(c0, c4, self.code@);
                }
                let ghost c5 = self.code@;
                let over = self.emit(Instr::Jump { target: 0 }, o);
                proof {
                    lemma_grew_push(c0, c5, self.code@.last());
                    assert(c5.push(self.code@.last()) =~= self.code@);
                }
                let entry = self.here();
                let ghost c6 = self.code@;
                self.patch(lo, push, entry, o);
                proof {
                    lemma_grew_patch(c0, c6, self.code@, jf, push);
                }
                let unwinding = self.reserve(1, lo, o);
                let ghost c7 = self.code@;
                self.body(lo, cleanup, unwinding, false, o);
                proof {
                    lemma_grew_trans(c0, c7, self.code@);
                }
                let ghost c8 = self.code@;
                self.emit(Instr::EndFinally, o);
                proof {
                    lemma_grew_push(c0, c8, self.code@.last());
                    assert(c8.push(self.code@.last()) =~= self.code@);
                }
                let end = self.here();
                let ghost c9 = self.code@;
                self.patch(lo, over, end, o);
                proof {
                    lemma_grew_patch(c0, c9, self.code@, c5.len() as int, over);
                }
            },
            _ => {},
        }
        self.regions = start_regions;
    }
}

} // verus!
