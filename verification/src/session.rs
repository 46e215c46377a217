//! A session: one VM, one chunk, one macro table, one gensym counter.
//!
//! The semantics live here and the prompt lives in the driver, so a change
//! here can change what a program means and a change there may not.

use crate::bytecode::{Chunk, Proto};
use crate::compile;
use crate::error::{LispErr, SpanOrigin};
use crate::expand::{self, Macros};
use crate::platform::Platform;
use crate::reader;
use crate::text::copy_str;
use crate::value::{Interner, Value};
use crate::vm::{self, Execution, Outcome, Unwind, Vm};
use vstd::prelude::*;

verus! {

/// How one input ended. A session never suspends, and an input that fails
/// to read has not run at all, which is a different thing from one that ran
/// and threw.
#[derive(Debug)]
pub enum Ended {
    Value(Value),
    Threw(Unwind),
}

pub struct Session<P: Platform> {
    pub vm: Vm<P>,
    /// One chunk for the whole session, extended per input. Existing proto
    /// indices never move, so a closure defined three inputs ago still names
    /// a valid proto.
    chunk: Chunk,
    macros: Macros,
}

impl<P: Platform> Session<P> {
    /// What the inputs have emitted and not yet been taken.
    pub closed spec fn pending_output(&self) -> Seq<char> {
        self.vm.out@
    }

    /// The session's chunk.
    pub closed spec fn compiled(&self) -> Chunk {
        self.chunk
    }

    /// The session's machine.
    pub closed spec fn machine(&self) -> Vm<P> {
        self.vm
    }

    /// The compiled code of every input so far, in order.
    pub open spec fn code(&self) -> Seq<Proto> {
        self.compiled().protos@
    }

    /// Every proto is well formed, no instruction names a slot outside its
    /// frame, and no jump leaves its function.
    pub closed spec fn code_ok(&self) -> bool {
        self.chunk.wf() && self.chunk.slots_inside() && self.chunk.targets_inside()
    }

    /// The outcome an input ended with, as the VM reports it.
    pub open spec fn outcome_of(e: Ended) -> Outcome {
        match e {
            Ended::Value(v) => Outcome::Returned(v),
            Ended::Threw(u) => Outcome::Threw(u),
        }
    }

    /// Running the code compiled for an input, from its top-level proto at
    /// index `top`, ended as `e` and left the machine as it is now.
    pub open spec fn evaluated(&self, top: int, e: Ended) -> bool {
        exists|vm0: Vm<P>, ex: Execution, ex2: Execution|
            vm::started(&self.compiled(), top as u32, ex) && #[trigger] vm::ran(
                &self.compiled(),
                vm0,
                ex,
                self.machine(),
                ex2,
                Self::outcome_of(e),
            )
    }

    /// Running the code compiled for an input from its top-level proto at
    /// index `top` took every one of `u64::MAX` steps without ending.
    pub open spec fn ran_out(&self, top: int) -> bool {
        exists|vm0: Vm<P>, ex: Execution, ex2: Execution|
            vm::started(&self.compiled(), top as u32, ex) && #[trigger] vm::ran_in(
                &self.compiled(),
                vm0,
                ex,
                self.machine(),
                ex2,
                Outcome::Suspended,
                u64::MAX as int,
            )
    }

    proof fn lemma_evaluated(s: Session<P>, top: int, e: Ended, vm0: Vm<P>, ex: Execution, ex2: Execution)
        requires
            vm::started(&s.chunk, top as u32, ex),
            vm::ran(&s.chunk, vm0, ex, s.vm, ex2, Self::outcome_of(e)),
        ensures
            s.evaluated(top, e),
    {
        assert(s.compiled() == s.chunk && s.machine() == s.vm);
        assert(vm::started(&s.compiled(), top as u32, ex) && vm::ran(
            &s.compiled(),
            vm0,
            ex,
            s.machine(),
            ex2,
            Self::outcome_of(e),
        ));
    }

    proof fn lemma_ran_out(s: Session<P>, top: int, vm0: Vm<P>, ex: Execution, ex2: Execution)
        requires
            vm::started(&s.chunk, top as u32, ex),
            vm::ran_in(&s.chunk, vm0, ex, s.vm, ex2, Outcome::Suspended, u64::MAX as int),
        ensures
            s.ran_out(top),
    {
        assert(s.compiled() == s.chunk && s.machine() == s.vm);
        assert(vm::started(&s.compiled(), top as u32, ex) && vm::ran_in(
            &s.compiled(),
            vm0,
            ex,
            s.machine(),
            ex2,
            Outcome::Suspended,
            u64::MAX as int,
        ));
    }

    /// A fresh session. The gensym counter is reset here and never again, so
    /// no two inputs can mint the same fresh name.
    pub fn new(platform: P) -> (r: Session<P>)
        ensures
            r.code().len() == 0,
            r.code_ok(),
    {
        let mut vm = Vm::new(platform);
        vm.reset_gensym();
        let macros = Macros::with_prelude(&mut vm);
        Session { vm, chunk: Chunk { protos: Vec::new() }, macros }
    }

    /// Read, expand, compile into the session's chunk, and run what was
    /// added. `Err` is a failure to build the input; a program that ran and
    /// threw is `Ok(Ended::Threw)`. Code compiled for earlier inputs is kept
    /// exactly as it was, whether this input builds or not.
    #[verifier::rlimit(40)]
    pub fn eval(&mut self, src: &str) -> (r: Result<Ended, LispErr>)
        ensures
            final(self).code().len() >= old(self).code().len(),
            forall|j: int|
                0 <= j < old(self).code().len() ==> #[trigger] final(self).code()[j] == old(
                    self,
                ).code()[j],
            r is Ok ==> final(self).code().len() > old(self).code().len(),
            r matches Ok(e) ==> final(self).evaluated(old(self).code().len() as int, e),
            old(self).code_ok() ==> final(self).code_ok(),
            r matches Err(e) ==> (final(self).code().len() != old(self).code().len() ==> e.msg@
                == "the input ran out of fuel"@ && final(self).ran_out(old(self).code().len() as int)),
    {
        let forms = match reader::read_all(src, &mut self.vm.interner, &self.vm.platform) {
            Ok(f) => f,
            Err(e) => {
                return Err(e);
            },
        };
        let forms = match expand::expand_in(forms, &mut self.vm, &mut self.macros) {
            Ok(f) => f,
            Err(e) => {
                return Err(e);
            },
        };
        let top = match compile::compile_into(&mut self.chunk, &forms, &mut self.vm.interner) {
            Ok(t) => t,
            Err(e) => {
                return Err(e);
            },
        };
        let ghost n0 = old(self).chunk.protos@.len();
        proof {
            let n: usize = n0 as usize;
            assert((n as u32) as usize <= n) by (bit_vector);
        }
        if (top as usize) >= self.chunk.protos.len() {
            return Err(
                LispErr::at_origin(SpanOrigin::Unknown, copy_str("a session holds more functions than fit in 32 bits")),
            );
        }
        let ex = vm::start_at(&self.chunk, top);
        let ghost ex0 = ex;
        let ghost vm0 = self.vm;
        let (outcome, after, _) = vm::run_fueled(&mut self.vm, &self.chunk, ex, u64::MAX);
        assert(vm::ran(&self.chunk, vm0, ex0, self.vm, after, outcome));
        match outcome {
            Outcome::Returned(v) => {
                let e = Ended::Value(v);
                proof {
                    Self::lemma_evaluated(*self, top as int, e, vm0, ex0, after);
                }
                Ok(e)
            },
            Outcome::Threw(u) => {
                let e = Ended::Threw(u);
                proof {
                    Self::lemma_evaluated(*self, top as int, e, vm0, ex0, after);
                }
                Ok(e)
            },
            Outcome::Suspended => {
                proof {
                    Self::lemma_ran_out(*self, top as int, vm0, ex0, after);
                }
                Err(LispErr::at_origin(SpanOrigin::Unknown, copy_str("the input ran out of fuel")))
            },
        }
    }

    /// Everything the input emitted, drained per input.
    pub fn take_output(&mut self) -> (r: String)
        ensures
            r@ == old(self).pending_output(),
            final(self).pending_output().len() == 0,
            final(self).code() == old(self).code(),
            final(self).code_ok() == old(self).code_ok(),
    {
        self.vm.take_output()
    }
}

/// Is this buffer a complete input, or did the user stop mid-form? A flag on
/// the reader's error, not a second parser or a bracket count: counting
/// brackets gets strings and comments wrong. Reads into a throwaway
/// interner, so an abandoned line leaves no symbols behind.
pub fn wants_more<P: Platform>(src: &str, p: &P) -> (r: bool)
    ensures
        forall|v: Value|
            reader::readable(v, Seq::<Seq<char>>::empty(), 0) && src@ == #[trigger] crate::printer::print_spec(
                v,
                Seq::<Seq<char>>::empty(),
            ) ==> !r,
        (forall|i: int| 0 <= i < src@.len() ==> crate::reader::is_ws(#[trigger] src@[i])) ==> !r,
        crate::reader::opens_string(src@, 0) && crate::reader::scan_string(src@, 1) is Unclosed ==> r,
{
    let mut scratch = Interner::new();
    match reader::read_all(src, &mut scratch, p) {
        Err(e) => e.truncated,
        Ok(_) => false,
    }
}

} // verus!
