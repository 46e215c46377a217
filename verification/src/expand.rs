//! Macro expansion, quasiquote, and gensym.
//!
//! A macro is language code, so expanding a form means running one:
//! compiling the macro's function, calling it with the unexpanded argument
//! forms as values, and walking whatever it hands back.
//!
//! The macro table belongs to a compilation unit, not to the machine: two
//! units compiled by one VM cannot see each other's macros.

use crate::bytecode::Chunk;
use crate::compile::{self, head_sym};
use crate::error::{LispErr, SpanOrigin};
use crate::platform::Platform;
use crate::printer;
use crate::reader::{self, with_name, MAX_NESTING};
use crate::text::{cat, cat3, chars_of, copy_str, push_str, string_of_range};
use crate::value::{
    children, children_spec, grows, kind_name, same_object, same_origins, Interner, LocatedForm, Origins, SymId, Value,
};
use crate::vm::{self, Execution, Outcome, Vm};
use std::collections::HashMap;
use std::rc::Rc;
use vstd::prelude::*;

verus! {

broadcast use {vstd::std_specs::vec::axiom_vec_decreases_to_view, vstd::std_specs::hash::group_hash_axioms};

/// `def` and `defmacro`, written in the language over the two forms that
/// define things: `set-global!` and `set-macro!`.
pub const PRELUDE: &'static str = "(set-macro! defmacro\n  (fn defmacro [name params & body]\n    `(set-macro! ~name (fn ~name ~params ~@body))))\n\n(set-macro! def\n  (fn def [name value]\n    `(set-global! ~name ~value)))\n";

/// A macro that rewrites to itself makes no progress; the bound is per form
/// and generous, and hitting it is a bug in the macro.
pub const MAX_EXPANSIONS: usize = 512;

/// The names the expander compares against, interned once.
struct Names {
    quote: SymId,
    quasiquote: SymId,
    unquote: SymId,
    unquote_splicing: SymId,
    set_macro: SymId,
    list: SymId,
    concat: SymId,
    vec: SymId,
    vector: SymId,
    hash_map: SymId,
}

/// Every form of a unit is plain at top level.
pub open spec fn plain_forms(names: Seq<Seq<char>>, macros: Set<SymId>, forms: Seq<LocatedForm>) -> bool {
    forall|i: int| 0 <= i < forms.len() ==> #[trigger] plain(names, macros, forms[i].root, forms[i].origins, 0)
}

/// The table after the expander has interned its own heads.
pub open spec fn expander_table(names: Seq<Seq<char>>) -> Seq<Seq<char>> {
    with_name(with_name(with_name(with_name(with_name(with_name(with_name(with_name(with_name(with_name(names, "quote"@), "quasiquote"@), "unquote"@), "unquote-splicing"@), "set-macro!"@), "list"@), "concat"@), "vec"@), "vector"@), "hash-map"@)
}

impl Names {
    /// Each field is the id its name interns to in `names`.
    spec fn named(self, names: Seq<Seq<char>>) -> bool {
        &&& self.quote == compile::special(names, "quote"@)
        &&& self.quasiquote == compile::special(names, "quasiquote"@)
        &&& self.unquote == compile::special(names, "unquote"@)
        &&& self.unquote_splicing == compile::special(names, "unquote-splicing"@)
        &&& self.set_macro == compile::special(names, "set-macro!"@)
        &&& self.list == compile::special(names, "list"@)
        &&& self.concat == compile::special(names, "concat"@)
        &&& self.vec == compile::special(names, "vec"@)
        &&& self.vector == compile::special(names, "vector"@)
        &&& self.hash_map == compile::special(names, "hash-map"@)
    }

    fn new(i: &mut Interner) -> (r: Names)
        ensures
            grows(old(i)@, final(i)@),
            final(i)@ == expander_table(old(i)@),
            r.named(final(i)@),
    {
        proof {
            reveal_strlit("quote");
            assert("quote"@[0] == 'q' && "quote"@.len() == 5);
            reveal_strlit("quasiquote");
            assert("quasiquote"@[0] == 'q' && "quasiquote"@.len() == 10);
            reveal_strlit("unquote");
            assert("unquote"@[0] == 'u' && "unquote"@.len() == 7);
            reveal_strlit("unquote-splicing");
            assert("unquote-splicing"@[0] == 'u' && "unquote-splicing"@.len() == 16);
            reveal_strlit("set-macro!");
            assert("set-macro!"@[0] == 's' && "set-macro!"@.len() == 10);
            reveal_strlit("list");
            assert("list"@[0] == 'l' && "list"@.len() == 4);
            reveal_strlit("concat");
            assert("concat"@[0] == 'c' && "concat"@.len() == 6);
            reveal_strlit("vec");
            assert("vec"@[0] == 'v' && "vec"@.len() == 3);
            reveal_strlit("vector");
            assert("vector"@[0] == 'v' && "vector"@.len() == 6);
            reveal_strlit("hash-map");
            assert("hash-map"@[0] == 'h' && "hash-map"@.len() == 8);
        }
        let quote = compile::intern_special(i, "quote");
        let quasiquote = compile::intern_special(i, "quasiquote");
        let unquote = compile::intern_special(i, "unquote");
        let unquote_splicing = compile::intern_special(i, "unquote-splicing");
        let set_macro = compile::intern_special(i, "set-macro!");
        let list = compile::intern_special(i, "list");
        let concat = compile::intern_special(i, "concat");
        let vec = compile::intern_special(i, "vec");
        let vector = compile::intern_special(i, "vector");
        let hash_map = compile::intern_special(i, "hash-map");
        Names { quote, quasiquote, unquote, unquote_splicing, set_macro, list, concat, vec, vector, hash_map }
    }
}

/// Two forms are one tree: atoms equal, aggregates of one kind with the
/// same children in order.
pub open spec fn same_form(a: Value, b: Value) -> bool
    decreases b,
{
    match (a, b) {
        (Value::List(x), Value::List(y)) => x@.len() == y@.len() && forall|i: int|
            0 <= i < y@.len() ==> same_form(x@[i], #[trigger] y@[i]),
        (Value::Vec(x), Value::Vec(y)) => x@.len() == y@.len() && forall|i: int|
            0 <= i < y@.len() ==> same_form(x@[i], #[trigger] y@[i]),
        (Value::Dict(x), Value::Dict(y)) => x@.len() == y@.len() && forall|i: int|
            0 <= i < y@.len() ==> same_form(x@[i].0, (#[trigger] y@[i]).0) && same_form(x@[i].1, y@[i].1),
        _ => a == b,
    }
}

/// A form expansion leaves alone, given the ids of the expander's own
/// heads: no macro call, no quasiquote, unquote or `set-macro!` outside a
/// `quote`, nested less than the bound deep, with an origin for every
/// child.
pub open spec fn plain_ids(
    quote: SymId,
    quasiquote: SymId,
    unquote: SymId,
    unquote_splicing: SymId,
    set_macro: SymId,
    macros: Set<SymId>,
    v: Value,
    o: Origins,
    depth: int,
) -> bool
    decreases v,
{
    depth < MAX_NESTING && match v {
        Value::List(l) => if l@.len() > 0 && l@[0] is Sym && l@[0]->Sym_0 == quote {
            true
        } else {
            &&& l@.len() > 0 && l@[0] is Sym ==> {
                let h = l@[0]->Sym_0;
                h != quasiquote && h != unquote && h != unquote_splicing && h != set_macro && !macros.contains(h)
            }
            &&& o.children@.len() == l@.len()
            &&& forall|i: int|
                0 <= i < l@.len() ==> plain_ids(
                    quote,
                    quasiquote,
                    unquote,
                    unquote_splicing,
                    set_macro,
                    macros,
                    #[trigger] l@[i],
                    o.children@[i],
                    depth + 1,
                )
        },
        Value::Vec(l) => o.children@.len() == l@.len() && forall|i: int|
            0 <= i < l@.len() ==> plain_ids(
                quote,
                quasiquote,
                unquote,
                unquote_splicing,
                set_macro,
                macros,
                #[trigger] l@[i],
                o.children@[i],
                depth + 1,
            ),
        Value::Dict(m) => o.children@.len() == 2 * m@.len() && forall|i: int|
            0 <= i < m@.len() ==> plain_ids(
                quote,
                quasiquote,
                unquote,
                unquote_splicing,
                set_macro,
                macros,
                (#[trigger] m@[i]).0,
                o.children@[2 * i],
                depth + 1,
            ) && plain_ids(
                quote,
                quasiquote,
                unquote,
                unquote_splicing,
                set_macro,
                macros,
                m@[i].1,
                o.children@[2 * i + 1],
                depth + 1,
            ),
        _ => true,
    }
}

/// A form expansion leaves alone, in a table of `names` where the given
/// symbols are macros.
pub open spec fn plain(names: Seq<Seq<char>>, macros: Set<SymId>, v: Value, o: Origins, depth: int) -> bool {
    plain_ids(
        compile::special(names, "quote"@),
        compile::special(names, "quasiquote"@),
        compile::special(names, "unquote"@),
        compile::special(names, "unquote-splicing"@),
        compile::special(names, "set-macro!"@),
        macros,
        v,
        o,
        depth,
    )
}

/// `plain`, by the expander's own head ids.
spec fn plain_nm(nm: Names, macros: Set<SymId>, v: Value, o: Origins, depth: int) -> bool {
    plain_ids(nm.quote, nm.quasiquote, nm.unquote, nm.unquote_splicing, nm.set_macro, macros, v, o, depth)
}

/// The children of an aggregate are each plain, one level down, with an
/// origin apiece.
spec fn kids_plain_nm(nm: Names, macros: Set<SymId>, v: Value, o: Origins, depth: int) -> bool {
    match v {
        Value::List(l) => o.children@.len() == l@.len() && forall|i: int|
            0 <= i < l@.len() ==> plain_nm(nm, macros, #[trigger] l@[i], o.children@[i], depth),
        Value::Vec(l) => o.children@.len() == l@.len() && forall|i: int|
            0 <= i < l@.len() ==> plain_nm(nm, macros, #[trigger] l@[i], o.children@[i], depth),
        Value::Dict(m) => o.children@.len() == 2 * m@.len() && forall|i: int|
            0 <= i < m@.len() ==> plain_nm(nm, macros, (#[trigger] m@[i]).0, o.children@[2 * i], depth)
                && plain_nm(nm, macros, m@[i].1, o.children@[2 * i + 1], depth),
        _ => true,
    }
}

/// Each item is plain with its origins beside it.
spec fn all_plain_nm(nm: Names, macros: Set<SymId>, items: Seq<Value>, origins: Seq<Origins>, depth: int) -> bool {
    items.len() == origins.len() && forall|i: int|
        0 <= i < items.len() ==> plain_nm(nm, macros, #[trigger] items[i], origins[i], depth)
}

/// Plainness reads the origins only for their shape.
proof fn lemma_plain_origins(nm: Names, macros: Set<SymId>, v: Value, o1: Origins, o2: Origins, d: int)
    requires
        same_origins(o1, o2),
    ensures
        plain_nm(nm, macros, v, o1, d) == plain_nm(nm, macros, v, o2, d),
    decreases v,
{
    match v {
        Value::List(l) => {
            assert forall|i: int| 0 <= i < l@.len() && i < o2.children@.len() implies plain_nm(
                nm,
                macros,
                #[trigger] l@[i],
                o1.children@[i],
                d + 1,
            ) == plain_nm(nm, macros, l@[i], o2.children@[i], d + 1) by {
                lemma_plain_origins(nm, macros, l@[i], o1.children@[i], o2.children@[i], d + 1);
            }
        },
        Value::Vec(l) => {
            assert forall|i: int| 0 <= i < l@.len() && i < o2.children@.len() implies plain_nm(
                nm,
                macros,
                #[trigger] l@[i],
                o1.children@[i],
                d + 1,
            ) == plain_nm(nm, macros, l@[i], o2.children@[i], d + 1) by {
                lemma_plain_origins(nm, macros, l@[i], o1.children@[i], o2.children@[i], d + 1);
            }
        },
        Value::Dict(m) => {
            assert forall|i: int| 0 <= i < m@.len() && 2 * i + 1 < o2.children@.len() implies plain_nm(
                nm,
                macros,
                (#[trigger] m@[i]).0,
                o1.children@[2 * i],
                d + 1,
            ) == plain_nm(nm, macros, m@[i].0, o2.children@[2 * i], d + 1) && plain_nm(
                nm,
                macros,
                m@[i].1,
                o1.children@[2 * i + 1],
                d + 1,
            ) == plain_nm(nm, macros, m@[i].1, o2.children@[2 * i + 1], d + 1) by {
                lemma_plain_origins(nm, macros, m@[i].0, o1.children@[2 * i], o2.children@[2 * i], d + 1);
                lemma_plain_origins(nm, macros, m@[i].1, o1.children@[2 * i + 1], o2.children@[2 * i + 1], d + 1);
            }
        },
        _ => {},
    }
}

/// Every form is one tree with itself.
pub proof fn lemma_same_form_refl(v: Value)
    ensures
        same_form(v, v),
    decreases v,
{
    match v {
        Value::List(l) => {
            assert forall|i: int| 0 <= i < l@.len() implies same_form(l@[i], #[trigger] l@[i]) by {
                lemma_same_form_refl(l@[i]);
            }
        },
        Value::Vec(l) => {
            assert forall|i: int| 0 <= i < l@.len() implies same_form(l@[i], #[trigger] l@[i]) by {
                lemma_same_form_refl(l@[i]);
            }
        },
        Value::Dict(m) => {
            assert forall|i: int| 0 <= i < m@.len() implies same_form(m@[i].0, (#[trigger] m@[i]).0) && same_form(
                m@[i].1,
                m@[i].1,
            ) by {
                lemma_same_form_refl(m@[i].0);
                lemma_same_form_refl(m@[i].1);
            }
        },
        _ => {},
    }
}

/// A macro is a closure plus the chunk it was compiled in: a closure names
/// its proto by index and means nothing without it.
struct Macro {
    chunk: Rc<Chunk>,
    f: Value,
}

/// The macro table. A file's table lives for one expansion; a session's
/// lives for the session, so a macro defined at the prompt is still there
/// on the next line.
pub struct Macros {
    table: HashMap<u32, Macro>,
}

impl Macros {
    /// Every macro is a function value.
    #[verifier::type_invariant]
    spec fn holds_functions(&self) -> bool {
        forall|k: u32| #[trigger] self.table@.contains_key(k) ==> self.table@[k].f is Fn
    }

    /// Which names are macros.
    pub closed spec fn names(&self) -> Set<SymId> {
        Set::new(|s: SymId| self.table@.contains_key(s.0))
    }

    /// The function macro `name` is defined as.
    pub closed spec fn fn_of(&self, name: SymId) -> Value {
        self.table@[name.0].f
    }

    /// The chunk macro `name`'s function was compiled in.
    pub closed spec fn chunk_of(&self, name: SymId) -> Chunk {
        *self.table@[name.0].chunk
    }

    /// A table with the prelude already in it.
    pub fn with_prelude<P: Platform>(vm: &mut Vm<P>) -> (r: Macros)
        ensures
            forall|name: SymId| #[trigger] r.names().contains(name) ==> r.fn_of(name) is Fn,
    {
        let mut m = Macros { table: HashMap::new() };
        let names = Names::new(&mut vm.interner);
        let src = PRELUDE;
        let forms = reader::read_all(src, &mut vm.interner, &vm.platform);
        // The prelude is this library's own text: a failure in it would be a
        // defect here, not a diagnostic for the user, and its forms are
        // discarded because everything it does, it does by installing
        // macros.
        match forms {
            Ok(forms) => {
                let mut i: usize = 0;
                while i < forms.len()
                    decreases forms@.len() - i,
                {
                    let _ = form(vm, &names, &mut m, forms[i].clone(), 0);
                    i = i + 1;
                }
            },
            Err(_) => {},
        }
        proof {
            use_type_invariant(&m);
            assert forall|name: SymId| #[trigger] m.names().contains(name) implies m.fn_of(name) is Fn by {
                assert(m.table@.contains_key(name.0));
            }
        }
        m
    }

    /// `name` is a macro from now on; a redefinition replaces the old one.
    fn define(&mut self, name: SymId, chunk: Rc<Chunk>, f: Value)
        requires
            f is Fn,
        ensures
            final(self).names() == old(self).names().insert(name),
            final(self).fn_of(name) == f,
            final(self).chunk_of(name) == *chunk,
            forall|other: SymId|
                #![trigger final(self).fn_of(other)]
                other != name ==> final(self).fn_of(other) == old(self).fn_of(other) && final(self).chunk_of(other)
                    == old(self).chunk_of(other),
    {
        proof {
            use_type_invariant(&*self);
        }
        let ghost c = chunk;
        let mut t: HashMap<u32, Macro> = HashMap::new();
        core::mem::swap(&mut t, &mut self.table);
        t.insert(name.0, Macro { chunk, f });
        self.table = t;
        proof {
            assert(final(self).names() =~= old(self).names().insert(name));
        }
    }

    pub fn is_macro(&self, name: SymId) -> (r: bool)
        ensures
            r == self.names().contains(name),
    {
        self.table.contains_key(&name.0)
    }
}

/// Expand one compilation unit: the prelude first, then the unit's own
/// forms in order. A `set-macro!` has run before a later form is expanded,
/// and not before. The gensym counter restarts, so the same source expands
/// the same way twice.
pub fn expand_all<P: Platform>(forms: Vec<LocatedForm>, vm: &mut Vm<P>) -> (r: Result<
    Vec<LocatedForm>,
    LispErr,
>)
    ensures
        r matches Ok(out) ==> out@.len() == forms@.len(),
{
    vm.reset_gensym();
    let mut macros = Macros::with_prelude(vm);
    expand_in(forms, vm, &mut macros)
}

/// Expand into an existing macro table, without touching the gensym
/// counter: a session is one unit, whose macros accumulate and whose fresh
/// names are never minted twice.
pub fn expand_in<P: Platform>(forms: Vec<LocatedForm>, vm: &mut Vm<P>, macros: &mut Macros) -> (r:
    Result<Vec<LocatedForm>, LispErr>)
    ensures
        r matches Ok(out) ==> out@.len() == forms@.len(),
        plain_forms(expander_table(old(vm).interner@), old(macros).names(), forms@) ==> (r matches Ok(out)
            && forall|i: int| 0 <= i < forms@.len() ==> same_form(#[trigger] out@[i].root, forms@[i].root)),
        r is Ok && forms@.len() > 0 && calls_macro(expander_table(old(vm).interner@), old(macros).names(), forms@[0].root)
            && macro_args(forms@[0].root).len() <= u32::MAX ==> exists|vm0: Vm<P>, vm1: Vm<P>, out: Value|
            vm0.interner@ == expander_table(old(vm).interner@) && #[trigger] applied(
                *old(macros),
                call_head(forms@[0].root),
                forms@[0].root,
                vm0,
                vm1,
                Ok::<Value, vm::Unwind>(out),
            ),
{
    let names = Names::new(&mut vm.interner);
    let ghost table = vm.interner@;
    let ghost names0 = macros.names();
    let ghost all = plain_forms(table, names0, forms@);
    let ghost first = forms@.len() > 0 && calls_macro(table, names0, forms@[0].root) && macro_args(
        forms@[0].root,
    ).len() <= u32::MAX;
    let ghost vm0 = *vm;
    let ghost mut vm1 = *vm;
    let ghost mut out1 = Value::Nil;
    let mut out: Vec<LocatedForm> = Vec::new();
    let mut i: usize = 0;
    while i < forms.len()
        invariant
            first == (forms@.len() > 0 && calls_macro(table, names0, forms@[0].root) && macro_args(forms@[0].root).len()
                <= u32::MAX),
            i == 0 ==> *vm == vm0 && *macros == *old(macros),
            vm0.interner@ == table,
            i > 0 && first ==> applied(
                *old(macros),
                call_head(forms@[0].root),
                forms@[0].root,
                vm0,
                vm1,
                Ok::<Value, vm::Unwind>(out1),
            ),
            out@.len() == i,
            i <= forms@.len(),
            names.named(table),
            all == plain_forms(table, names0, forms@),
            table == expander_table(old(vm).interner@),
            names0 == old(macros).names(),
            all ==> vm.interner@ == table && macros.names() == names0,
            all ==> forall|k: int| 0 <= k < i ==> same_form(#[trigger] out@[k].root, forms@[k].root),
        decreases forms@.len() - i,
    {
        let fi = forms[i].clone();
        proof {
            if all {
                assert(plain(table, names0, forms@[i as int].root, forms@[i as int].origins, 0));
                assert(plain_nm(names, names0, forms@[i as int].root, forms@[i as int].origins, 0));
                lemma_plain_origins(names, names0, fi.root, fi.origins, forms@[i as int].origins, 0);
            }
        }
        proof {
            if i == 0 && first {
                assert(macro_call(names, old(macros).names(), fi.root));
            }
        }
        match form(vm, &names, macros, fi, 0) {
            Ok(f) => out.push(f),
            Err(e) => {
                return Err(e);
            },
        }
        proof {
            if i == 0 && first {
                let (a, b) = choose|a: Vm<P>, b: Value|
                    #[trigger] applied(*old(macros), call_head(fi.root), fi.root, vm0, a, Ok::<Value, vm::Unwind>(b));
                vm1 = a;
                out1 = b;
            }
        }
        i = i + 1;
    }
    Ok(out)
}

/// Expand one form to a fixed point, then its children. Macro output is
/// where unbounded nesting can appear without any source text, so the depth
/// is bounded here as the reader bounds it.
fn form<P: Platform>(vm: &mut Vm<P>, nm: &Names, macros: &mut Macros, f: LocatedForm, depth: usize) -> (r:
    Result<LocatedForm, LispErr>)
    ensures
        depth >= MAX_NESTING ==> r is Err,
        depth < MAX_NESTING && heads(f.root, nm.quote) ==> r == Ok::<LocatedForm, LispErr>(f),
        depth < MAX_NESTING && heads(f.root, nm.unquote) && !heads(f.root, nm.quote) && !heads(
            f.root,
            nm.quasiquote,
        ) ==> r is Err,
        plain_nm(*nm, old(macros).names(), f.root, f.origins, depth as int) ==> (r matches Ok(g) && same_form(
            g.root,
            f.root,
        ) && final(macros).names() == old(macros).names() && final(vm).interner@ == old(vm).interner@),
        r is Ok && macro_call(*nm, old(macros).names(), f.root) && macro_args(f.root).len() <= u32::MAX ==> exists|
            vm1: Vm<P>,
            out: Value,
        | #[trigger] applied(*old(macros), call_head(f.root), f.root, *old(vm), vm1, Ok::<Value, vm::Unwind>(out)),
    decreases MAX_NESTING - depth, 1nat,
{
    if depth >= MAX_NESTING {
        return Err(LispErr::at_origin(f.origins.origin, copy_str("expansion nested more than 256 deep")));
    }
    form_inner(vm, nm, macros, f, depth + 1)
}

fn form_inner<P: Platform>(
    vm: &mut Vm<P>,
    nm: &Names,
    macros: &mut Macros,
    f: LocatedForm,
    depth: usize,
) -> (r: Result<LocatedForm, LispErr>)
    requires
        depth <= MAX_NESTING,
    ensures
        heads(f.root, nm.quote) ==> r == Ok::<LocatedForm, LispErr>(f),
        heads(f.root, nm.unquote) && !heads(f.root, nm.quote) && !heads(f.root, nm.quasiquote) ==> r is Err,
        depth >= 1 && plain_nm(*nm, old(macros).names(), f.root, f.origins, depth - 1) ==> (r matches Ok(g)
            && same_form(g.root, f.root) && final(macros).names() == old(macros).names() && final(vm).interner@
            == old(vm).interner@),
        r is Ok && macro_call(*nm, old(macros).names(), f.root) && macro_args(f.root).len() <= u32::MAX ==> exists|
            vm1: Vm<P>,
            out: Value,
        | #[trigger] applied(*old(macros), call_head(f.root), f.root, *old(vm), vm1, Ok::<Value, vm::Unwind>(out)),
    decreases MAX_NESTING - depth, 4nat,
{
    let mut cur = f;
    let mut k: usize = 0;
    let ghost is_call = macro_call(*nm, old(macros).names(), f.root) && macro_args(f.root).len() <= u32::MAX;
    let ghost mut vm1 = *vm;
    let ghost mut out1 = Value::Nil;
    while k < MAX_EXPANSIONS
        invariant
            depth <= MAX_NESTING,
            k == 0 ==> cur == f,
            k == 0 ==> *macros == *old(macros) && *vm == *old(vm),
            is_call == (macro_call(*nm, old(macros).names(), f.root) && macro_args(f.root).len() <= u32::MAX),
            k > 0 && is_call ==> applied(*old(macros), call_head(f.root), f.root, *old(vm), vm1, Ok::<Value, vm::Unwind>(out1)),
            k > 0 ==> !heads(f.root, nm.quote) && !heads(f.root, nm.unquote),
            k > 0 ==> !(depth >= 1 && plain_nm(*nm, old(macros).names(), f.root, f.origins, depth - 1)),
        decreases MAX_EXPANSIONS - k,
    {
        let head = match head_sym(&cur.root) {
            None => {
                return children_of(vm, nm, macros, cur, depth);
            },
            Some(h) => h,
        };
        // `quote` is the one head whose contents are data rather than code:
        // descending into it would expand a call the program only talks
        // about.
        if head == nm.quote {
            proof {
                lemma_same_form_refl(cur.root);
            }
            return Ok(cur);
        }
        if head == nm.quasiquote {
            let out = match quasiquote(vm, nm, &cur) {
                Ok(o) => o,
                Err(e) => {
                    return Err(e);
                },
            };
            return form(vm, nm, macros, out, depth);
        }
        if head == nm.unquote || head == nm.unquote_splicing {
            let msg = cat3("`", vm.interner.name_or_empty(head.0), "` outside a quasiquote");
            return Err(LispErr::at_origin(cur.origins.origin, msg));
        }
        if head == nm.set_macro {
            return set_macro(vm, nm, macros, cur, depth);
        }
        if !macros.is_macro(head) {
            return children_of(vm, nm, macros, cur, depth);
        }
        cur = match invoke(vm, macros, head, &cur) {
            Ok(g) => g,
            Err(e) => {
                return Err(e);
            },
        };
        proof {
            if k == 0 && is_call {
                vm1 = *vm;
                out1 = cur.root;
            }
        }
        k = k + 1;
    }
    Err(
        LispErr::at_origin(
            cur.origins.origin,
            copy_str("expanded 512 times without settling — a macro is rewriting to itself"),
        ),
    )
}

/// Rebuild an aggregate with expanded children, keeping origins paired
/// with the nodes they describe.
fn children_of<P: Platform>(
    vm: &mut Vm<P>,
    nm: &Names,
    macros: &mut Macros,
    f: LocatedForm,
    depth: usize,
) -> (r: Result<LocatedForm, LispErr>)
    requires
        depth <= MAX_NESTING,
    ensures
        kids_plain_nm(*nm, old(macros).names(), f.root, f.origins, depth as int) ==> (r matches Ok(g) && same_form(
            g.root,
            f.root,
        ) && final(macros).names() == old(macros).names() && final(vm).interner@ == old(vm).interner@),
        r matches Ok(g) ==> g.origins.origin == f.origins.origin,
    decreases MAX_NESTING - depth, 3nat,
{
    let ghost f0 = f;
    let ghost names0 = macros.names();
    let LocatedForm { root, origins } = f;
    let Origins { origin, children: kids } = origins;
    match &root {
        Value::List(l) => {
            let (vs, os) = match each(vm, nm, macros, l, &kids, depth) {
                Ok(p) => p,
                Err(e) => {
                    return Err(e);
                },
            };
            Ok(LocatedForm { root: Value::List(Rc::new(vs)), origins: Origins { origin, children: os } })
        },
        Value::Vec(x) => {
            let (vs, os) = match each(vm, nm, macros, x, &kids, depth) {
                Ok(p) => p,
                Err(e) => {
                    return Err(e);
                },
            };
            Ok(LocatedForm { root: Value::Vec(Rc::new(vs)), origins: Origins { origin, children: os } })
        },
        Value::Dict(m) => {
            let flat = children(&root);
            proof {
                if kids_plain_nm(*nm, names0, f0.root, f0.origins, depth as int) {
                    assert forall|j: int| 0 <= j < flat@.len() implies plain_nm(
                        *nm,
                        names0,
                        #[trigger] flat@[j],
                        kids@[j],
                        depth as int,
                    ) by {
                        let p = m@[j / 2];
                        assert(0 <= j / 2 < m@.len());
                        if j % 2 == 0 {
                            assert(j == 2 * (j / 2));
                        } else {
                            assert(j == 2 * (j / 2) + 1);
                        }
                    }
                }
            }
            let (vs, os) = match each(vm, nm, macros, &flat, &kids, depth) {
                Ok(p) => p,
                Err(e) => {
                    return Err(e);
                },
            };
            let mut pairs: Vec<(Value, Value)> = Vec::new();
            let mut i: usize = 0;
            while vs.len() - i >= 2
                invariant
                    i <= vs@.len(),
                    i % 2 == 0,
                    pairs@.len() == i / 2,
                    forall|k: int|
                        0 <= k < pairs@.len() ==> (#[trigger] pairs@[k]).0 == vs@[2 * k] && pairs@[k].1 == vs@[2 * k
                            + 1],
                decreases vs@.len() - i,
            {
                pairs.push((vs[i].clone(), vs[i + 1].clone()));
                i = i + 2;
            }
            proof {
                if kids_plain_nm(*nm, names0, f0.root, f0.origins, depth as int) {
                    assert(vs@.len() == 2 * m@.len());
                    assert forall|k: int| 0 <= k < m@.len() implies same_form(pairs@[k].0, (#[trigger] m@[k]).0)
                        && same_form(pairs@[k].1, m@[k].1) by {
                        assert(flat@[2 * k] == m@[k].0);
                        assert(flat@[2 * k + 1] == m@[k].1);
                    }
                }
            }
            Ok(LocatedForm { root: Value::Dict(Rc::new(pairs)), origins: Origins { origin, children: os } })
        },
        _ => {
            proof {
                lemma_same_form_refl(root);
            }
            Ok(LocatedForm { root, origins: Origins { origin, children: kids } })
        },
    }
}

/// Every child of an aggregate, expanded, with its origin beside it. Values
/// and origins pair up as far as both go.
fn each<P: Platform>(
    vm: &mut Vm<P>,
    nm: &Names,
    macros: &mut Macros,
    items: &Vec<Value>,
    origins: &Vec<Origins>,
    depth: usize,
) -> (r: Result<(Vec<Value>, Vec<Origins>), LispErr>)
    requires
        depth <= MAX_NESTING,
    ensures
        all_plain_nm(*nm, old(macros).names(), items@, origins@, depth as int) ==> (r matches Ok(p) && p.0@.len() == items@.len() && (forall|i: int|
            0 <= i < items@.len() ==> same_form(#[trigger] p.0@[i], items@[i])) && final(macros).names() == old(
            macros,
        ).names() && final(vm).interner@ == old(vm).interner@),
    decreases MAX_NESTING - depth, 2nat,
{
    let ghost names0 = macros.names();
    let ghost ints0 = vm.interner@;
    let ghost all_plain = all_plain_nm(*nm, names0, items@, origins@, depth as int);
    let mut vs: Vec<Value> = Vec::new();
    let mut os: Vec<Origins> = Vec::new();
    let mut i: usize = 0;
    while i < items.len() && i < origins.len()
        invariant
            depth <= MAX_NESTING,
            vs@.len() == i,
            i <= items@.len(),
            all_plain == all_plain_nm(*nm, names0, items@, origins@, depth as int),
            names0 == old(macros).names(),
            ints0 == old(vm).interner@,
            all_plain ==> macros.names() == names0 && vm.interner@ == ints0,
            all_plain ==> forall|k: int| 0 <= k < i ==> same_form(#[trigger] vs@[k], items@[k]),
        decreases items@.len() - i,
    {
        let oi = origins[i].clone();
        proof {
            lemma_plain_origins(*nm, names0, items@[i as int], oi, origins@[i as int], depth as int);
        }
        let ghost item = items@[i as int];
        proof {
            if all_plain {
                assert(plain_nm(*nm, macros.names(), item, oi, depth as int));
            }
        }
        let out = match form(vm, nm, macros, LocatedForm { root: items[i].clone(), origins: oi }, depth) {
            Ok(o) => o,
            Err(e) => {
                proof {
                    assert(!all_plain);
                }
                return Err(e);
            },
        };
        vs.push(out.root);
        os.push(out.origins);
        i = i + 1;
    }
    proof {
        if all_plain {
            assert(i == items@.len());
        }
    }
    Ok((vs, os))
}

/// `(set-macro! name expr)`: the expression is compiled and run now, and the
/// closure it yields is a macro for the rest of the unit. The form itself
/// expands to `(quote name)`: it has had its whole effect.
fn set_macro<P: Platform>(
    vm: &mut Vm<P>,
    nm: &Names,
    macros: &mut Macros,
    f: LocatedForm,
    depth: usize,
) -> (r: Result<LocatedForm, LispErr>)
    requires
        depth <= MAX_NESTING,
    ensures
        !(f.root matches Value::List(l) && l@.len() == 3 && l@[1] is Sym) ==> r is Err,
        r matches Ok(g) ==> {
            let name = f.root->List_0@[1];
            &&& g.root matches Value::List(xs) && xs@ == seq![Value::Sym(nm.quote), name]
            &&& final(macros).names().contains(name->Sym_0)
            &&& final(macros).fn_of(name->Sym_0) is Fn
            &&& defined_by(final(macros).chunk_of(name->Sym_0), *final(vm), final(macros).fn_of(name->Sym_0))
        },
    decreases MAX_NESTING - depth, 2nat,
{
    let at = f.origins.origin;
    let items = match &f.root {
        Value::List(l) => {
            if l.len() == 3 {
                crate::value::copy_values(l)
            } else {
                return Err(LispErr::at_origin(at, copy_str("`set-macro!` takes a name and an expression")));
            }
        },
        _ => {
            return Err(LispErr::at_origin(at, copy_str("`set-macro!` takes a name and an expression")));
        },
    };
    let kids = &f.origins.children;
    let name = match &items[1] {
        Value::Sym(s) => *s,
        other => {
            let o = if kids.len() > 1 {
                kids[1].origin
            } else {
                at
            };
            return Err(LispErr::at_origin(o, cat("`set-macro!` needs a name, not a ", kind_name(other))));
        },
    };
    let body_origins = if kids.len() > 2 {
        kids[2].clone()
    } else {
        Origins::leaf(at)
    };
    let body = match form(vm, nm, macros, LocatedForm { root: items[2].clone(), origins: body_origins }, depth) {
        Ok(b) => b,
        Err(e) => {
            return Err(e);
        },
    };
    let body_at = body.origins.origin;
    let mut unit: Vec<LocatedForm> = Vec::new();
    unit.push(body);
    let chunk = match compile::compile(&unit, &mut vm.interner) {
        Ok(c) => c,
        Err(e) => {
            return Err(e);
        },
    };
    let value = match vm::run(vm, &chunk) {
        Outcome::Returned(v) => v,
        Outcome::Threw(u) => {
            let mut msg = cat3("defining macro `", vm.interner.name_or_empty(name.0), "` threw ");
            let t = printer::print(&u.value, &vm.interner, &vm.platform);
            push_str(&mut msg, t.as_str());
            return Err(LispErr::at_origin(body_at, msg));
        },
        Outcome::Suspended => {
            return Err(LispErr::at_origin(body_at, copy_str("defining a macro ran out of fuel")));
        },
    };
    if !matches!(value, Value::Fn(_)) {
        return Err(LispErr::at_origin(body_at, cat("a macro must be a function, not a ", kind_name(&value))));
    }
    macros.define(name, Rc::new(chunk), value);
    let mut out: Vec<Value> = Vec::new();
    out.push(Value::Sym(nm.quote));
    out.push(items[1].clone());
    let mut os: Vec<Origins> = Vec::new();
    os.push(if kids.len() > 0 {
        kids[0].clone()
    } else {
        Origins::leaf(at)
    });
    os.push(if kids.len() > 1 {
        kids[1].clone()
    } else {
        Origins::leaf(at)
    });
    Ok(LocatedForm { root: Value::List(Rc::new(out)), origins: Origins { origin: at, children: os } })
}

/// `v` calls a macro of `names`: a list headed by a symbol that is neither
/// one of the expander's own heads nor anything but a defined macro.
spec fn macro_call(nm: Names, names: Set<SymId>, v: Value) -> bool {
    &&& v matches Value::List(l) && l@.len() > 0 && l@[0] is Sym
    &&& {
        let h = call_head(v);
        &&& h != nm.quote && h != nm.quasiquote && h != nm.unquote
        &&& h != nm.unquote_splicing && h != nm.set_macro
        &&& names.contains(h)
    }
}

/// `v` calls a macro of `names`, in a unit whose interned names are
/// `table`: a list headed by a symbol that is neither one of the expander's
/// own heads nor anything but a defined macro.
pub open spec fn calls_macro(table: Seq<Seq<char>>, names: Set<SymId>, v: Value) -> bool {
    &&& v matches Value::List(l) && l@.len() > 0 && l@[0] is Sym
    &&& {
        let h = call_head(v);
        &&& h != compile::special(table, "quote"@) && h != compile::special(table, "quasiquote"@)
        &&& h != compile::special(table, "unquote"@) && h != compile::special(table, "unquote-splicing"@)
        &&& h != compile::special(table, "set-macro!"@)
        &&& names.contains(h)
    }
}

/// The symbol a call is headed by.
pub open spec fn call_head(v: Value) -> SymId {
    v->List_0@[0]->Sym_0
}

/// The argument forms of a macro call: everything after its head.
pub open spec fn macro_args(form: Value) -> Seq<Value> {
    match form {
        Value::List(l) => if l@.len() > 0 {
            l@.drop_first()
        } else {
            Seq::empty()
        },
        _ => Seq::empty(),
    }
}

/// `out` is what running macro `name`'s definition on the unexpanded
/// arguments of `form` gave back, as `vm::called` says a call of its
/// function in the chunk it was compiled in does.
pub open spec fn applied<P: Platform>(
    macros: Macros,
    name: SymId,
    form: Value,
    vm: Vm<P>,
    vm2: Vm<P>,
    out: Result<Value, vm::Unwind>,
) -> bool {
    &&& macros.names().contains(name)
    &&& macros.fn_of(name) matches Value::Fn(c) ==> (*c matches crate::value::Closure::Fn { proto, .. } ==> vm::called(
        &macros.chunk_of(name),
        vm,
        c,
        proto,
        macro_args(form),
        vm2,
        out,
    ))
}

/// Run a macro over its unexpanded arguments and give the result origins: a
/// node the macro passed through keeps its source position, and everything
/// it built carries the call site.
fn invoke<P: Platform>(vm: &mut Vm<P>, macros: &Macros, name: SymId, f: &LocatedForm) -> (r: Result<
    LocatedForm,
    LispErr,
>)
    ensures
        !macros.names().contains(name) ==> (r matches Err(e) && e.origin == f.origins.origin),
        r matches Ok(g) ==> g.origins.origin == generated_at(f.origins.origin) || is_heap_spec(g.root),
        r matches Ok(g) ==> macro_args(f.root).len() <= u32::MAX ==> applied(
            *macros,
            name,
            f.root,
            *old(vm),
            *final(vm),
            Ok(g.root),
        ),
{
    let at = f.origins.origin;
    let items = match &f.root {
        Value::List(l) => crate::value::copy_values(l),
        _ => Vec::new(),
    };
    let mut args: Vec<Value> = Vec::new();
    let mut i: usize = 1;
    while i < items.len()
        invariant
            1 <= i,
            items@.len() > 0 ==> i <= items@.len(),
            items@.len() > 0 ==> args@ == items@.subrange(1, i as int),
            items@.len() == 0 ==> args@.len() == 0,
        decreases items@.len() - i,
    {
        args.push(items[i].clone());
        proof {
            assert(args@ =~= items@.subrange(1, i + 1));
        }
        i = i + 1;
    }
    proof {
        if items@.len() > 0 {
            assert(args@ =~= macro_args(f.root));
        } else {
            assert(args@ =~= macro_args(f.root));
        }
    }
    let m = match macros.table.get(&name.0) {
        Some(m) => m,
        None => {
            proof {
                assert(!macros.names().contains(name));
            }
            return Err(LispErr::at_origin(at, copy_str("a macro call names no macro")));
        },
    };
    let chunk = m.chunk.clone();
    let closure = m.f.clone();
    let g0 = vm.gensym;
    proof {
        assert(macros.names().contains(name));
        assert(macros.fn_of(name) == closure);
        assert(macros.chunk_of(name) == *chunk);
    }
    let out = match vm::call_in(vm, &chunk, closure, &args, at) {
        Ok(v) => v,
        Err(u) => {
            let mut msg = cat3("macro `", vm.interner.name_or_empty(name.0), "` threw ");
            let t = printer::print(&u.value, &vm.interner, &vm.platform);
            push_str(&mut msg, t.as_str());
            return Err(LispErr::at_origin(at, msg));
        },
    };
    // Positions the arguments brought, found again by object identity, so a
    // subform the macro passed through keeps its own position.
    let mut known: Vec<(Value, Origins)> = Vec::new();
    let mut k: usize = 1;
    while k < items.len() && k < f.origins.children.len()
        invariant
            forall|j: int| 0 <= j < known@.len() ==> is_heap_spec(#[trigger] known@[j].0),
        decreases items@.len() - k,
    {
        index_origins(&items[k], &f.origins.children[k], &mut known);
        k = k + 1;
    }
    let generated = match at.span() {
        Some(s) => SpanOrigin::Generated(s),
        // A call with no position of its own: expansion of generated code.
        None => SpanOrigin::Unknown,
    };
    let origins = origins_for(&out, generated, &known);
    Ok(LocatedForm { root: out, origins })
}

/// Running `chunk` from its top level, from some machine, returned `f` and
/// left the machine as `vm`: what a macro definition evaluated to.
pub open spec fn defined_by<P: Platform>(chunk: Chunk, vm: Vm<P>, f: Value) -> bool {
    exists|vm0: Vm<P>, ex: Execution, ex2: Execution|
        vm::started(&chunk, 0, ex) && #[trigger] vm::ran(&chunk, vm0, ex, vm, ex2, Outcome::Returned(f))
}

/// The origin of what a macro built at a call from `at`: generated there,
/// or unknown where the call has no position.
spec fn generated_at(at: SpanOrigin) -> SpanOrigin {
    match at.spec_span() {
        Some(s) => SpanOrigin::Generated(s),
        None => SpanOrigin::Unknown,
    }
}

/// `a` and `b` are one heap object: immediates have no identity.
fn identical(a: &Value, b: &Value) -> (r: bool)
    ensures
        r ==> *a == *b && is_heap_spec(*a),
{
    match (a, b) {
        (Value::List(x), Value::List(y)) => same_object(x, y),
        (Value::Vec(x), Value::Vec(y)) => same_object(x, y),
        (Value::Dict(x), Value::Dict(y)) => same_object(x, y),
        (Value::Str(x), Value::Str(y)) => same_object(x, y),
        _ => false,
    }
}

/// A value with identity: an allocation a macro can pass through intact.
spec fn is_heap_spec(v: Value) -> bool {
    v is List || v is Vec || v is Dict || v is Str
}

fn is_heap(v: &Value) -> (r: bool)
    ensures
        r == is_heap_spec(*v),
{
    matches!(v, Value::List(_) | Value::Vec(_) | Value::Dict(_) | Value::Str(_))
}

/// Every heap object of an argument, with the origins it was read with.
#[verifier::loop_isolation(false)]
fn index_origins(v: &Value, o: &Origins, out: &mut Vec<(Value, Origins)>)
    ensures
        final(out)@.len() >= old(out)@.len(),
        forall|k: int| 0 <= k < old(out)@.len() ==> #[trigger] final(out)@[k] == old(out)@[k],
        forall|k: int| old(out)@.len() <= k < final(out)@.len() ==> is_heap_spec(#[trigger] final(out)@[k].0),
        is_heap_spec(*v) ==> final(out)@.len() > old(out)@.len() && final(out)@[old(out)@.len() as int].0 == *v
            && same_origins(final(out)@[old(out)@.len() as int].1, *o),
        !is_heap_spec(*v) && children_spec(*v).len() == 0 ==> final(out)@ == old(out)@,
    decreases *v,
{
    let ghost o0 = out@;
    if is_heap(v) {
        out.push((v.clone(), o.clone()));
    }
    let ghost o1 = out@;
    match v {
        Value::List(l) | Value::Vec(l) => {
            let mut i: usize = 0;
            while i < l.len() && i < o.children.len()
                invariant
                    out@.len() >= o1.len(),
                    forall|k: int| 0 <= k < o1.len() ==> #[trigger] out@[k] == o1[k],
                    forall|k: int| o0.len() <= k < out@.len() ==> is_heap_spec(#[trigger] out@[k].0),
                decreases l@.len() - i,
            {
                proof {
                    assert(decreases_to!(l@ => l@[i as int]));
                }
                index_origins(&l[i], &o.children[i], out);
                i = i + 1;
            }
        },
        Value::Dict(m) => {
            let mut i: usize = 0;
            while i < m.len()
                invariant
                    out@.len() >= o1.len(),
                    forall|k: int| 0 <= k < o1.len() ==> #[trigger] out@[k] == o1[k],
                    forall|k: int| o0.len() <= k < out@.len() ==> is_heap_spec(#[trigger] out@[k].0),
                decreases m@.len() - i,
            {
                proof {
                    assert(decreases_to!(m@ => m@[i as int]));
                    assert(decreases_to!(m@[i as int] => m@[i as int].0));
                    assert(decreases_to!(m@[i as int] => m@[i as int].1));
                }
                if 2 * (i as u128) + 1 < o.children.len() as u128 {
                    index_origins(&m[i].0, &o.children[2 * i], out);
                    index_origins(&m[i].1, &o.children[2 * i + 1], out);
                }
                i = i + 1;
            }
        },
        _ => {},
    }
}

/// Origins for macro output: a node still identifiable keeps the position it
/// was read at (the latest one recorded for it); everything else is
/// `generated` at the call site.
#[verifier::loop_isolation(false)]
fn origins_for(v: &Value, generated: SpanOrigin, known: &Vec<(Value, Origins)>) -> (r: Origins)
    ensures
        (exists|k: int| 0 <= k < known@.len() && #[trigger] known@[k].0 == *v && same_origins(r, known@[k].1)) || (
        r.origin == generated && r.children@.len() == children_spec(*v).len()),
        (forall|k: int| 0 <= k < known@.len() ==> is_heap_spec(#[trigger] known@[k].0)) && r.origin != generated
            ==> is_heap_spec(*v),
    decreases *v,
{
    let mut i = known.len();
    while i > 0
        invariant
            i <= known@.len(),
        decreases i,
    {
        if identical(&known[i - 1].0, v) {
            let r = known[i - 1].1.clone();
            proof {
                assert(known@[i - 1].0 == *v && same_origins(r, known@[i - 1].1));
            }
            return r;
        }
        i = i - 1;
    }
    let mut kids: Vec<Origins> = Vec::new();
    match v {
        Value::List(l) | Value::Vec(l) => {
            let mut k: usize = 0;
            while k < l.len()
                invariant
                    kids@.len() == k,
                    k <= l@.len(),
                decreases l@.len() - k,
            {
                proof {
                    assert(decreases_to!(l@ => l@[k as int]));
                }
                kids.push(origins_for(&l[k], generated, known));
                k = k + 1;
            }
        },
        Value::Dict(m) => {
            let mut k: usize = 0;
            while k < m.len()
                invariant
                    kids@.len() == 2 * k,
                    k <= m@.len(),
                decreases m@.len() - k,
            {
                proof {
                    assert(decreases_to!(m@ => m@[k as int]));
                    assert(decreases_to!(m@[k as int] => m@[k as int].0));
                    assert(decreases_to!(m@[k as int] => m@[k as int].1));
                }
                kids.push(origins_for(&m[k].0, generated, known));
                kids.push(origins_for(&m[k].1, generated, known));
                k = k + 1;
            }
        },
        _ => {},
    }
    Origins { origin: generated, children: kids }
}

/// Origins for a form built from nothing but its template: all of it is
/// generated, at the template's position.
#[verifier::loop_isolation(false)]
fn generated_origins(v: &Value, at: SpanOrigin) -> (r: Origins)
    ensures
        r.origin == (match at.spec_span() {
            Some(s) => SpanOrigin::Generated(s),
            None => SpanOrigin::Unknown,
        }),
    decreases *v,
{
    let origin = match at.span() {
        Some(s) => SpanOrigin::Generated(s),
        None => SpanOrigin::Unknown,
    };
    let mut kids: Vec<Origins> = Vec::new();
    match v {
        Value::List(l) | Value::Vec(l) => {
            let mut k: usize = 0;
            while k < l.len()
                decreases l@.len() - k,
            {
                proof {
                    assert(decreases_to!(l@ => l@[k as int]));
                }
                kids.push(generated_origins(&l[k], at));
                k = k + 1;
            }
        },
        Value::Dict(m) => {
            let mut k: usize = 0;
            while k < m.len()
                decreases m@.len() - k,
            {
                proof {
                    assert(decreases_to!(m@ => m@[k as int]));
                    assert(decreases_to!(m@[k as int] => m@[k as int].0));
                    assert(decreases_to!(m@[k as int] => m@[k as int].1));
                }
                kids.push(generated_origins(&m[k].0, at));
                kids.push(generated_origins(&m[k].1, at));
                k = k + 1;
            }
        },
        _ => {},
    }
    Origins { origin, children: kids }
}

// --- what a template lowers to --------------------------------------------------

/// `v` is a list whose head is the symbol `h`.
spec fn heads(v: Value, h: SymId) -> bool {
    v matches Value::List(l) && l@.len() > 0 && l@[0] == Value::Sym(h)
}

/// A name that asks for a fresh symbol per template: it ends in `#`.
spec fn hashed(name: Seq<char>) -> bool {
    name.len() > 1 && name.last() == '#'
}

/// An item of a list or vector template lowers without error: a `~@` with
/// exactly one form, or a template that does.
spec fn item_ok(nm: Names, item: Value) -> bool
    decreases item, 2nat,
{
    if heads(item, nm.unquote_splicing) {
        item->List_0@.len() == 2
    } else {
        template_ok(nm, item)
    }
}

/// A template lowers without error: no quasiquote inside it, every `~`
/// with exactly one form, and `~@` only as an item of a list or vector.
spec fn template_ok(nm: Names, v: Value) -> bool
    decreases v, 1nat,
{
    match v {
        Value::List(l) => if heads(v, nm.quasiquote) {
            false
        } else if heads(v, nm.unquote) {
            l@.len() == 2
        } else if heads(v, nm.unquote_splicing) {
            false
        } else {
            forall|i: int| 0 <= i < l@.len() ==> item_ok(nm, #[trigger] l@[i])
        },
        Value::Vec(l) => forall|i: int| 0 <= i < l@.len() ==> item_ok(nm, #[trigger] l@[i]),
        Value::Dict(m) => forall|j: int|
            0 <= j < m@.len() ==> {
                &&& !heads((#[trigger] m@[j]).0, nm.unquote_splicing)
                &&& template_ok(nm, m@[j].0)
                &&& !heads(m@[j].1, nm.unquote_splicing)
                &&& template_ok(nm, m@[j].1)
            },
        _ => true,
    }
}

/// Some item of a sequence is a `~@`.
spec fn any_splice(nm: Names, items: Seq<Value>) -> bool {
    exists|i: int| 0 <= i < items.len() && heads(#[trigger] items[i], nm.unquote_splicing)
}

/// `r` is a form that, evaluated, builds the template `v`: a `~x` is `x`
/// itself; a list, vector or map without `~@` is a call of `list`,
/// `vector` or `hash-map` on its items' forms, in order; one with `~@` is a
/// `concat` of the groups; a symbol is quoted (a fresh one where its name,
/// among `names`, ends in `#`); anything else is itself.
spec fn built(nm: Names, names: Seq<Seq<char>>, v: Value, r: Value) -> bool
    decreases v,
{
    match v {
        Value::List(l) => if heads(v, nm.unquote) {
            l@.len() == 2 ==> r == l@[1]
        } else if any_splice(nm, l@) {
            r matches Value::List(xs) && xs@.len() > 0 && xs@[0] == Value::Sym(nm.concat)
        } else {
            r matches Value::List(xs) && xs@.len() == l@.len() + 1 && xs@[0] == Value::Sym(nm.list) && forall|i: int|
                0 <= i < l@.len() ==> built(nm, names, #[trigger] l@[i], xs@[i + 1])
        },
        Value::Vec(l) => if any_splice(nm, l@) {
            r matches Value::List(xs) && xs@.len() == 2 && xs@[0] == Value::Sym(nm.vec)
        } else {
            r matches Value::List(xs) && xs@.len() == l@.len() + 1 && xs@[0] == Value::Sym(nm.vector)
                && forall|i: int| 0 <= i < l@.len() ==> built(nm, names, #[trigger] l@[i], xs@[i + 1])
        },
        Value::Dict(m) => r matches Value::List(xs) && xs@.len() == 2 * m@.len() + 1 && xs@[0] == Value::Sym(
            nm.hash_map,
        ) && forall|j: int|
            0 <= j < m@.len() ==> built(nm, names, (#[trigger] m@[j]).0, xs@[2 * j + 1]) && built(
                nm,
                names,
                m@[j].1,
                xs@[2 * j + 2],
            ),
        Value::Sym(s) => r matches Value::List(q) && q@.len() == 2 && q@[0] == Value::Sym(nm.quote) && ((s.0
            < names.len() && !hashed(names[s.0 as int])) ==> q@[1] == v),
        _ => r == v,
    }
}

/// What lowering the items of a list or vector template gives: an error
/// exactly when some item is not fine; otherwise, without `~@`, each item's
/// own form in order, and with one, a `concat` of the groups.
spec fn sequenced(nm: Names, names: Seq<Seq<char>>, items: Seq<Value>, r: Result<Items, LispErr>) -> bool {
    &&& r is Ok <==> forall|i: int| 0 <= i < items.len() ==> item_ok(nm, #[trigger] items[i])
    &&& r matches Ok(Items::Plain(vs)) ==> !any_splice(nm, items) && vs@.len() == items.len() && forall|i: int|
        0 <= i < items.len() ==> built(nm, names, #[trigger] items[i], vs@[i])
    &&& r matches Ok(Items::Spliced(c)) ==> any_splice(nm, items) && (c matches Value::List(xs) && xs@.len() > 0
        && xs@[0] == Value::Sym(nm.concat))
}

/// What holds of a template's form against the names known when it was
/// built holds against any fewer of them.
proof fn lemma_built_fewer_names(nm: Names, fewer: Seq<Seq<char>>, names: Seq<Seq<char>>, v: Value, r: Value)
    requires
        grows(fewer, names),
        built(nm, names, v, r),
    ensures
        built(nm, fewer, v, r),
    decreases v,
{
    match v {
        Value::List(l) => {
            if !heads(v, nm.unquote) && !any_splice(nm, l@) {
                let xs = r->List_0;
                assert forall|i: int| 0 <= i < l@.len() implies built(nm, fewer, #[trigger] l@[i], xs@[i + 1]) by {
                    lemma_built_fewer_names(nm, fewer, names, l@[i], xs@[i + 1]);
                }
            }
        },
        Value::Vec(l) => {
            if !any_splice(nm, l@) {
                let xs = r->List_0;
                assert forall|i: int| 0 <= i < l@.len() implies built(nm, fewer, #[trigger] l@[i], xs@[i + 1]) by {
                    lemma_built_fewer_names(nm, fewer, names, l@[i], xs@[i + 1]);
                }
            }
        },
        Value::Dict(m) => {
            let xs = r->List_0;
            assert forall|j: int| 0 <= j < m@.len() implies built(nm, fewer, (#[trigger] m@[j]).0, xs@[2 * j + 1])
                && built(nm, fewer, m@[j].1, xs@[2 * j + 2]) by {
                assert(decreases_to!(m@ => m@[j]));
                lemma_built_fewer_names(nm, fewer, names, m@[j].0, xs@[2 * j + 1]);
                lemma_built_fewer_names(nm, fewer, names, m@[j].1, xs@[2 * j + 2]);
            }
        },
        _ => {},
    }
}

// --- quasiquote ------------------------------------------------------------------

/// Lower `` `x `` to the calls that build it: `list`, `concat`, `vec`, and
/// `hash-map`, all ordinary globals.
fn quasiquote<P: Platform>(vm: &mut Vm<P>, nm: &Names, f: &LocatedForm) -> (r: Result<LocatedForm, LispErr>)
    ensures
        grows(old(vm).interner@, final(vm).interner@),
        r is Ok <==> (f.root matches Value::List(l) && l@.len() == 2 && template_ok(*nm, l@[1])),
        r matches Ok(g) ==> built(*nm, old(vm).interner@, f.root->List_0@[1], g.root),
{
    let at = f.origins.origin;
    let inner = match &f.root {
        Value::List(l) => {
            if l.len() == 2 {
                l[1].clone()
            } else {
                return Err(LispErr::at_origin(at, copy_str("`quasiquote` takes one form")));
            }
        },
        _ => {
            return Err(LispErr::at_origin(at, copy_str("`quasiquote` takes one form")));
        },
    };
    let mut auto: HashMap<u32, Value> = HashMap::new();
    let built = match template(vm, nm, &inner, at, &mut auto) {
        Ok(b) => b,
        Err(e) => {
            return Err(e);
        },
    };
    let origins = generated_origins(&built, at);
    Ok(LocatedForm { root: built, origins })
}

/// `(head args…)`.
fn call_form(head: SymId, args: Vec<Value>) -> (r: Value)
    ensures
        r matches Value::List(items) && items@ == seq![Value::Sym(head)] + args@,
{
    let mut items: Vec<Value> = Vec::new();
    items.push(Value::Sym(head));
    let mut i: usize = 0;
    while i < args.len()
        invariant
            i <= args@.len(),
            items@ == seq![Value::Sym(head)] + args@.take(i as int),
        decreases args@.len() - i,
    {
        items.push(args[i].clone());
        proof {
            assert(args@.take(i + 1) =~= args@.take(i as int).push(args@[i as int]));
            assert(items@ =~= seq![Value::Sym(head)] + args@.take(i + 1));
        }
        i = i + 1;
    }
    proof {
        assert(args@.take(args@.len() as int) =~= args@);
    }
    Value::List(Rc::new(items))
}

/// `(quote v)`.
fn quoted(quote: SymId, v: Value) -> (r: Value)
    ensures
        r matches Value::List(items) && items@ == seq![Value::Sym(quote), v],
{
    let mut items: Vec<Value> = Vec::new();
    items.push(Value::Sym(quote));
    items.push(v);
    proof {
        assert(items@ =~= seq![Value::Sym(quote), v]);
    }
    Value::List(Rc::new(items))
}

/// The fresh name a template's `auto` table already gave `s`.
spec fn auto_name(auto: Map<u32, Value>, s: SymId) -> Option<Value> {
    if auto.contains_key(s.0) {
        Some(auto[s.0])
    } else {
        None
    }
}

/// `b` keeps every entry of `a`.
spec fn auto_kept(a: Map<u32, Value>, b: Map<u32, Value>) -> bool {
    forall|k: u32| #[trigger] a.contains_key(k) ==> b.contains_key(k) && b[k] == a[k]
}

/// A name `x#` asks for one fresh name per template.
fn auto_gensym_base(name: &str) -> (r: Option<String>)
    ensures
        r is Some <==> hashed(name@),
{
    let cs = chars_of(name);
    let n = cs.len();
    if n > 1 && cs[n - 1] == '#' {
        let mut end = n;
        while end > 0 && cs[end - 1] == '#'
            invariant
                end <= cs@.len(),
            decreases end,
        {
            end = end - 1;
        }
        Some(string_of_range(cs.as_slice(), 0, end))
    } else {
        None
    }
}

/// One level of template: a form that constructs the input.
fn template<P: Platform>(vm: &mut Vm<P>, nm: &Names, v: &Value, at: SpanOrigin, auto: &mut HashMap<u32, Value>) -> (r:
    Result<Value, LispErr>)
    ensures
        grows(old(vm).interner@, final(vm).interner@),
        r is Ok <==> template_ok(*nm, *v),
        r matches Ok(t) ==> built(*nm, old(vm).interner@, *v, t),
        auto_kept(old(auto)@, final(auto)@),
        *v matches Value::Sym(s) ==> ((s.0 as int) < old(vm).interner@.len() && hashed(old(vm).interner@[s.0 as int])
            ==> (r matches Ok(Value::List(q)) && q@.len() == 2 && auto_name(final(auto)@, s) == Some(q@[1]))),
        *v matches Value::Sym(s) ==> (auto_name(old(auto)@, s) is Some ==> final(auto)@ == old(auto)@),
    decreases *v, 1nat,
{
    match v {
        Value::List(l) => {
            match head_sym(v) {
                Some(h) => {
                    if h == nm.quasiquote {
                        return Err(
                            LispErr::at_origin(at, copy_str("a quasiquote inside a quasiquote is not supported")),
                        );
                    }
                    if h == nm.unquote {
                        if l.len() == 2 {
                            return Ok(l[1].clone());
                        }
                        return Err(LispErr::at_origin(at, copy_str("`~` takes one form")));
                    }
                    if h == nm.unquote_splicing {
                        return Err(LispErr::at_origin(at, copy_str("`~@` has nothing to splice into here")));
                    }
                },
                None => {},
            }
            assert(!heads(*v, nm.quasiquote) && !heads(*v, nm.unquote) && !heads(*v, nm.unquote_splicing));
            match sequence(vm, nm, l, at, auto) {
                Ok(Items::Plain(vs)) => {
                    let ghost items = vs@;
                    let r = call_form(nm.list, vs);
                    proof {
                        let xs = r->List_0;
                        assert forall|i: int| 0 <= i < l@.len() implies built(
                            *nm,
                            old(vm).interner@,
                            #[trigger] l@[i],
                            xs@[i + 1],
                        ) by {
                            assert(xs@[i + 1] == items[i]);
                        }
                    }
                    Ok(r)
                },
                Ok(Items::Spliced(c)) => Ok(c),
                Err(e) => Err(e),
            }
        },
        // A spliced vector goes through a list, because splicing is a list
        // operation; an unspliced one is a direct `vector` call.
        Value::Vec(x) => match sequence(vm, nm, x, at, auto) {
            Ok(Items::Plain(vs)) => {
                let ghost items = vs@;
                let r = call_form(nm.vector, vs);
                proof {
                    let xs = r->List_0;
                    assert forall|i: int| 0 <= i < x@.len() implies built(
                        *nm,
                        old(vm).interner@,
                        #[trigger] x@[i],
                        xs@[i + 1],
                    ) by {
                        assert(xs@[i + 1] == items[i]);
                    }
                }
                Ok(r)
            },
            Ok(Items::Spliced(c)) => {
                let mut one: Vec<Value> = Vec::new();
                one.push(c);
                Ok(call_form(nm.vec, one))
            },
            Err(e) => Err(e),
        },
        Value::Dict(m) => {
            let flat = children(v);
            let ghost fl = flat@;
            proof {
                assert(fl == crate::value::flatten_pairs(m@));
                assert forall|j: int| 0 <= j < m@.len() implies fl[2 * j] == (#[trigger] m@[j]).0 && fl[2 * j
                    + 1] == m@[j].1 by {
                    assert((2 * j) / 2 == j && (2 * j) % 2 == 0);
                    assert((2 * j + 1) / 2 == j && (2 * j + 1) % 2 == 1);
                }
                assert forall|i: int| 0 <= i < fl.len() implies (#[trigger] fl[i] == m@[i / 2].0 || fl[i] == m@[i
                    / 2].1) && 0 <= i / 2 < m@.len() by {}
            }
            match sequence_flat(vm, nm, v, &flat, at, auto) {
                Ok(Items::Plain(vs)) => {
                    let ghost items = vs@;
                    let r = call_form(nm.hash_map, vs);
                    proof {
                        let xs = r->List_0;
                        assert forall|j: int| 0 <= j < m@.len() implies built(
                            *nm,
                            old(vm).interner@,
                            (#[trigger] m@[j]).0,
                            xs@[2 * j + 1],
                        ) && built(*nm, old(vm).interner@, m@[j].1, xs@[2 * j + 2]) by {
                            assert(xs@[2 * j + 1] == items[2 * j]);
                            assert(xs@[2 * j + 2] == items[2 * j + 1]);
                            assert(fl[2 * j] == m@[j].0);
                        }
                        assert forall|j: int| 0 <= j < m@.len() implies {
                            &&& !heads((#[trigger] m@[j]).0, nm.unquote_splicing)
                            &&& template_ok(*nm, m@[j].0)
                            &&& !heads(m@[j].1, nm.unquote_splicing)
                            &&& template_ok(*nm, m@[j].1)
                        } by {
                            assert(item_ok(*nm, fl[2 * j]));
                            assert(item_ok(*nm, fl[2 * j + 1]));
                            if heads(fl[2 * j], nm.unquote_splicing) {
                                assert(any_splice(*nm, fl));
                            }
                            if heads(fl[2 * j + 1], nm.unquote_splicing) {
                                assert(any_splice(*nm, fl));
                            }
                        }
                    }
                    Ok(r)
                },
                // Splicing pairs into a map would need `apply`; refused
                // rather than half-supported.
                Ok(Items::Spliced(_)) => {
                    proof {
                        let i = choose|i: int| 0 <= i < fl.len() && heads(#[trigger] fl[i], nm.unquote_splicing);
                        let j = i / 2;
                        assert(fl[i] == m@[j].0 || fl[i] == m@[j].1);
                        assert(!template_ok(*nm, *v)) by {
                            assert(m@[j] == m@[j]);
                        }
                    }
                    Err(LispErr::at_origin(at, copy_str("`~@` inside a map template is not supported")))
                },
                Err(e) => {
                    proof {
                        let i = choose|i: int| 0 <= i < fl.len() && !item_ok(*nm, #[trigger] fl[i]);
                        let j = i / 2;
                        assert(fl[i] == m@[j].0 || fl[i] == m@[j].1);
                        assert(!template_ok(*nm, *v)) by {
                            assert(m@[j] == m@[j]);
                        }
                    }
                    Err(e)
                },
            }
        },
        // `x#` is one fresh name per template: two occurrences in one
        // template are the same symbol, and two templates never collide.
        Value::Sym(s) => {
            let name = copy_str(vm.interner.name_or_empty(s.0));
            match auto_gensym_base(name.as_str()) {
                Some(base) => {
                    match auto.get(&s.0) {
                        Some(g) => {
                            return Ok(quoted(nm.quote, g.clone()));
                        },
                        None => {},
                    }
                    let generated = vm.gensym_name(base.as_str());
                    let sym = vm.interner.sym(generated.as_str());
                    auto.insert(s.0, sym.clone());
                    Ok(quoted(nm.quote, sym))
                },
                None => Ok(quoted(nm.quote, v.clone())),
            }
        },
        // Everything else evaluates to itself; a symbol is the only atom that
        // means something else in code position.
        other => Ok(other.clone()),
    }
}

proof fn lemma_child_smaller_value(v: Value, i: int)
    requires
        0 <= i < crate::value::children_spec(v).len(),
    ensures
        decreases_to!(v => crate::value::children_spec(v)[i]),
{
    match v {
        Value::Dict(m) => {
            let p = m@[i / 2];
            assert(decreases_to!(m@ => p));
            assert(decreases_to!(p => p.0));
            assert(decreases_to!(p => p.1));
            assert(crate::value::flatten_pairs(m@)[i] == if i % 2 == 0 {
                p.0
            } else {
                p.1
            });
        },
        Value::List(l) => {
            assert(decreases_to!(l@ => l@[i]));
        },
        Value::Vec(l) => {
            assert(decreases_to!(l@ => l@[i]));
        },
        _ => {},
    }
}

/// What a template's items came to: either the item forms, or, once
/// anything is spliced, one form that concatenates the groups.
enum Items {
    Plain(Vec<Value>),
    Spliced(Value),
}

fn splice_of(nm: &Names, item: &Value, at: SpanOrigin) -> (r: Result<Option<Value>, LispErr>)
    ensures
        !heads(*item, nm.unquote_splicing) ==> r == Ok::<Option<Value>, LispErr>(None),
        heads(*item, nm.unquote_splicing) ==> if item->List_0@.len() == 2 {
            r == Ok::<Option<Value>, LispErr>(Some(item->List_0@[1]))
        } else {
            r is Err
        },
{
    match head_sym(item) {
        Some(h) => {
            if h == nm.unquote_splicing {
                match item {
                    Value::List(l) => {
                        if l.len() == 2 {
                            return Ok(Some(l[1].clone()));
                        }
                    },
                    _ => {},
                }
                return Err(LispErr::at_origin(at, copy_str("`~@` takes one form")));
            }
            Ok(None)
        },
        None => Ok(None),
    }
}

fn sequence<P: Platform>(
    vm: &mut Vm<P>,
    nm: &Names,
    items: &Vec<Value>,
    at: SpanOrigin,
    auto: &mut HashMap<u32, Value>,
) -> (r: Result<Items, LispErr>)
    ensures
        grows(old(vm).interner@, final(vm).interner@),
        sequenced(*nm, old(vm).interner@, items@, r),
        auto_kept(old(auto)@, final(auto)@),
    decreases items@, 0nat,
{
    let ghost names = vm.interner@;
    let mut groups: Vec<Value> = Vec::new();
    let mut plain: Vec<Value> = Vec::new();
    let mut spliced = false;
    let mut i: usize = 0;
    while i < items.len()
        invariant
            names == old(vm).interner@,
            grows(names, vm.interner@),
            i <= items@.len(),
            forall|j: int| 0 <= j < i ==> item_ok(*nm, #[trigger] items@[j]),
            spliced <==> exists|j: int| 0 <= j < i && heads(#[trigger] items@[j], nm.unquote_splicing),
            !spliced ==> plain@.len() == i && forall|j: int|
                0 <= j < i ==> built(*nm, names, #[trigger] items@[j], plain@[j]),
            auto_kept(old(auto)@, auto@),
        decreases items@.len() - i,
    {
        proof {
            assert(decreases_to!(items@ => items@[i as int]));
        }
        match splice_of(nm, &items[i], at) {
            Err(e) => {
                assert(!item_ok(*nm, items@[i as int]));
                return Err(e);
            },
            Ok(Some(e)) => {
                spliced = true;
                if plain.len() > 0 {
                    let mut taken: Vec<Value> = Vec::new();
                    core::mem::swap(&mut taken, &mut plain);
                    groups.push(call_form(nm.list, taken));
                }
                groups.push(e);
            },
            Ok(None) => {
                let ghost now = vm.interner@;
                match template(vm, nm, &items[i], at, auto) {
                    Ok(t) => {
                        proof {
                            lemma_built_fewer_names(*nm, names, now, items@[i as int], t);
                        }
                        plain.push(t);
                    },
                    Err(e) => {
                        assert(!item_ok(*nm, items@[i as int]));
                        return Err(e);
                    },
                }
            },
        }
        i = i + 1;
    }
    if !spliced {
        return Ok(Items::Plain(plain));
    }
    if plain.len() > 0 {
        groups.push(call_form(nm.list, plain));
    }
    Ok(Items::Spliced(call_form(nm.concat, groups)))
}

/// `sequence` over a map's key-then-value children, which are themselves
/// children of `v`.
fn sequence_flat<P: Platform>(
    vm: &mut Vm<P>,
    nm: &Names,
    v: &Value,
    items: &Vec<Value>,
    at: SpanOrigin,
    auto: &mut HashMap<u32, Value>,
) -> (r: Result<Items, LispErr>)
    requires
        items@ == crate::value::children_spec(*v),
    ensures
        grows(old(vm).interner@, final(vm).interner@),
        sequenced(*nm, old(vm).interner@, items@, r),
        auto_kept(old(auto)@, final(auto)@),
    decreases *v, 0nat,
{
    let ghost names = vm.interner@;
    let mut groups: Vec<Value> = Vec::new();
    let mut plain: Vec<Value> = Vec::new();
    let mut spliced = false;
    let mut i: usize = 0;
    while i < items.len()
        invariant
            items@ == crate::value::children_spec(*v),
            names == old(vm).interner@,
            grows(names, vm.interner@),
            i <= items@.len(),
            forall|j: int| 0 <= j < i ==> item_ok(*nm, #[trigger] items@[j]),
            spliced <==> exists|j: int| 0 <= j < i && heads(#[trigger] items@[j], nm.unquote_splicing),
            !spliced ==> plain@.len() == i && forall|j: int|
                0 <= j < i ==> built(*nm, names, #[trigger] items@[j], plain@[j]),
            auto_kept(old(auto)@, auto@),
        decreases items@.len() - i,
    {
        proof {
            lemma_child_smaller_value(*v, i as int);
        }
        match splice_of(nm, &items[i], at) {
            Err(e) => {
                assert(!item_ok(*nm, items@[i as int]));
                return Err(e);
            },
            Ok(Some(e)) => {
                spliced = true;
                if plain.len() > 0 {
                    let mut taken: Vec<Value> = Vec::new();
                    core::mem::swap(&mut taken, &mut plain);
                    groups.push(call_form(nm.list, taken));
                }
                groups.push(e);
            },
            Ok(None) => {
                let ghost now = vm.interner@;
                match template(vm, nm, &items[i], at, auto) {
                    Ok(t) => {
                        proof {
                            lemma_built_fewer_names(*nm, names, now, items@[i as int], t);
                        }
                        plain.push(t);
                    },
                    Err(e) => {
                        assert(!item_ok(*nm, items@[i as int]));
                        return Err(e);
                    },
                }
            },
        }
        i = i + 1;
    }
    if !spliced {
        return Ok(Items::Plain(plain));
    }
    if plain.len() > 0 {
        groups.push(call_form(nm.list, plain));
    }
    Ok(Items::Spliced(call_form(nm.concat, groups)))
}

} // verus!
