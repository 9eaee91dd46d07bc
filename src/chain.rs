use vstd::prelude::*;

use crate::error::{fails_with, Error, Failure};
use crate::program::{first_fault, instruction_views, spread, Address, InstructionView, ProgramBuilder};
use crate::subroutine::{first_symbolic_fault, SubRoutineBuilder};

verus! {

/// Builders that record gate applications on addresses of type `A`: qubit addresses for
/// a program, variables for a sub-routine.
pub trait InstructionChain<A> {
    /// The builder's invariant.
    spec fn chain_wf(&self) -> bool;

    /// The instructions recorded so far.
    spec fn recorded(&self) -> Seq<InstructionView<A>>;

    /// Why the builder refuses to record the instructions `s` in one call, if it does.
    spec fn fault(&self, s: Seq<InstructionView<A>>) -> Option<Failure>;

    /// Applies gate `gate_name` to `target`, under `control` if given.
    fn apply(&mut self, gate_name: &str, target: A, control: Option<A>) -> (r: Result<(), Error>)
        requires
            old(self).chain_wf(),
        ensures
            final(self).chain_wf(),
            ({
                let i = InstructionView { gate: gate_name@, target, control, reverse: false };
                match old(self).fault(seq![i]) {
                    Some(f) => fails_with(r, f) && final(self).recorded() == old(self).recorded(),
                    None => r is Ok && final(self).recorded() == old(self).recorded().push(i),
                }
            }),
    ;

    /// Applies gate `gate_name` to each of `targets` in order.
    fn apply_iter(&mut self, gate_name: &str, targets: &[A], control: Option<A>) -> (r: Result<
        (),
        Error,
    >)
        requires
            old(self).chain_wf(),
        ensures
            final(self).chain_wf(),
            ({
                let s = spread(gate_name@, targets@, control, false);
                match old(self).fault(s) {
                    Some(f) => fails_with(r, f) && final(self).recorded() == old(self).recorded(),
                    None => r is Ok && final(self).recorded() == old(self).recorded() + s,
                }
            }),
    ;

    /// Applies the inverse of gate `gate_name` to `target`.
    fn unapply(&mut self, gate_name: &str, target: A, control: Option<A>) -> (r: Result<(), Error>)
        requires
            old(self).chain_wf(),
        ensures
            final(self).chain_wf(),
            ({
                let i = InstructionView { gate: gate_name@, target, control, reverse: true };
                match old(self).fault(seq![i]) {
                    Some(f) => fails_with(r, f) && final(self).recorded() == old(self).recorded(),
                    None => r is Ok && final(self).recorded() == old(self).recorded().push(i),
                }
            }),
    ;

    /// Applies the inverse of gate `gate_name` to each of `targets` in order.
    fn unapply_iter(&mut self, gate_name: &str, targets: &[A], control: Option<A>) -> (r: Result<
        (),
        Error,
    >)
        requires
            old(self).chain_wf(),
        ensures
            final(self).chain_wf(),
            ({
                let s = spread(gate_name@, targets@, control, true);
                match old(self).fault(s) {
                    Some(f) => fails_with(r, f) && final(self).recorded() == old(self).recorded(),
                    None => r is Ok && final(self).recorded() == old(self).recorded() + s,
                }
            }),
    ;
}

proof fn lemma_single_fault(n: nat, gates: Seq<Seq<char>>, i: InstructionView<Address>)
    ensures
        first_fault(n, gates, seq![i]) == crate::program::instruction_fault(n, gates, i),
{
    let s = seq![i];
    assert(s.len() == 1 && s[0] == i);
    assert(s.drop_first() =~= Seq::<InstructionView<Address>>::empty());
    assert(first_fault(n, gates, s.drop_first()) is None);
}

proof fn lemma_single_symbolic_fault(vars: Seq<char>, gates: Seq<Seq<char>>, i: InstructionView<char>)
    ensures
        first_symbolic_fault(vars, gates, seq![i]) == crate::subroutine::symbolic_fault(vars, gates, i),
{
    let s = seq![i];
    assert(s.len() == 1 && s[0] == i);
    assert(s.drop_first() =~= Seq::<InstructionView<char>>::empty());
    assert(first_symbolic_fault(vars, gates, s.drop_first()) is None);
}

impl InstructionChain<Address> for ProgramBuilder {
    open spec fn chain_wf(&self) -> bool {
        self.wf()
    }

    open spec fn recorded(&self) -> Seq<InstructionView<Address>> {
        instruction_views(self.instructions@)
    }

    open spec fn fault(&self, s: Seq<InstructionView<Address>>) -> Option<Failure> {
        if self.measured {
            Some(Failure::BuilderSealed)
        } else {
            first_fault(self.size as nat, self.gates(), s)
        }
    }

    fn apply(&mut self, gate_name: &str, target: Address, control: Option<Address>) -> (r: Result<
        (),
        Error,
    >) {
        proof {
            lemma_single_fault(
                self.size as nat,
                self.gates(),
                InstructionView { gate: gate_name@, target, control, reverse: false },
            );
        }
        ProgramBuilder::apply(self, gate_name, target, control)
    }

    fn apply_iter(&mut self, gate_name: &str, targets: &[Address], control: Option<Address>) -> (r:
        Result<(), Error>) {
        ProgramBuilder::apply_iter(self, gate_name, targets, control)
    }

    fn unapply(&mut self, gate_name: &str, target: Address, control: Option<Address>) -> (r: Result<
        (),
        Error,
    >) {
        proof {
            lemma_single_fault(
                self.size as nat,
                self.gates(),
                InstructionView { gate: gate_name@, target, control, reverse: true },
            );
        }
        ProgramBuilder::unapply(self, gate_name, target, control)
    }

    fn unapply_iter(&mut self, gate_name: &str, targets: &[Address], control: Option<Address>) -> (r:
        Result<(), Error>) {
        ProgramBuilder::unapply_iter(self, gate_name, targets, control)
    }
}

impl InstructionChain<char> for SubRoutineBuilder {
    open spec fn chain_wf(&self) -> bool {
        self.wf()
    }

    open spec fn recorded(&self) -> Seq<InstructionView<char>> {
        instruction_views(self.instructions@)
    }

    open spec fn fault(&self, s: Seq<InstructionView<char>>) -> Option<Failure> {
        if self.ended {
            Some(Failure::BuilderSealed)
        } else {
            first_symbolic_fault(self.variables@, self.gates(), s)
        }
    }

    fn apply(&mut self, gate_name: &str, target: char, control: Option<char>) -> (r: Result<(), Error>) {
        proof {
            lemma_single_symbolic_fault(
                self.variables@,
                self.gates(),
                InstructionView { gate: gate_name@, target, control, reverse: false },
            );
        }
        SubRoutineBuilder::apply(self, gate_name, target, control)
    }

    fn apply_iter(&mut self, gate_name: &str, targets: &[char], control: Option<char>) -> (r: Result<
        (),
        Error,
    >) {
        SubRoutineBuilder::apply_iter(self, gate_name, targets, control)
    }

    fn unapply(&mut self, gate_name: &str, target: char, control: Option<char>) -> (r: Result<(), Error>) {
        proof {
            lemma_single_symbolic_fault(
                self.variables@,
                self.gates(),
                InstructionView { gate: gate_name@, target, control, reverse: true },
            );
        }
        SubRoutineBuilder::unapply(self, gate_name, target, control)
    }

    fn unapply_iter(&mut self, gate_name: &str, targets: &[char], control: Option<char>) -> (r: Result<
        (),
        Error,
    >) {
        SubRoutineBuilder::unapply_iter(self, gate_name, targets, control)
    }
}

} // verus!
