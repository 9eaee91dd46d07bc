use vstd::arithmetic::power2::*;
use vstd::prelude::*;

use crate::error::{fails_with, Error, Failure};
use crate::program::{
    clone_names, first_fault, instruction_views, name_views, Address, InstructionView, Program,
    ProgramBuilder,
};
use crate::state::{parse_ket, ParseRegisterError};

verus! {

/// The names in `names` are pairwise distinct.
pub open spec fn distinct_names(names: Seq<Seq<char>>) -> bool {
    forall|i: int, j: int| 0 <= i < j < names.len() ==> #[trigger] names[i] != #[trigger] names[j]
}

/// Collects gates for a computer of `size` qubits. `G` is the matrix type of gates of
/// the device that will run the programs.
pub struct ComputerBuilder<G> {
    pub size: Address,
    pub gate_names: Vec<String>,
    pub gates: Vec<G>,
    pub built: bool,
}

/// A computer of `size` qubits with its table of named gates.
pub struct Computer<G> {
    pub size: Address,
    pub gate_names: Vec<String>,
    pub gates: Vec<G>,
}

/// One kernel launch on the device.
#[derive(Clone, Copy, Debug, PartialEq, Eq, Structural)]
pub enum Launch {
    /// Apply gate number `gate` of the table (its inverse if `inverse`) to `target`.
    ApplyGate { gate: usize, inverse: bool, target: Address },
    /// The same, only where the qubit `control` is 1.
    ApplyControlledGate { gate: usize, inverse: bool, target: Address, control: Address },
    /// Replace every amplitude by its probability.
    CalculateProbabilities,
    /// One pass of the reduction into a tree of partial sums, on `global_size` work-items.
    ReduceDistribution { pass: Address, global_size: u64 },
}

/// `l` is the launch that carries out the instruction `i` with the table of gates `gates`.
pub open spec fn launch_for(l: Launch, i: InstructionView<Address>, gates: Seq<Seq<char>>) -> bool {
    match i.control {
        None => l matches Launch::ApplyGate { gate, inverse, target } && gate < gates.len()
            && gates[gate as int] == i.gate && inverse == i.reverse && target == i.target,
        Some(c) => l matches Launch::ApplyControlledGate { gate, inverse, target, control }
            && gate < gates.len() && gates[gate as int] == i.gate && inverse == i.reverse && target
            == i.target && control == c,
    }
}

/// `plan` runs the instructions `instrs` on `n` qubits, then turns amplitudes into
/// probabilities, then reduces them in passes `1..n` on `2^(n - pass)` work-items each.
pub open spec fn is_plan(
    plan: Seq<Launch>,
    n: nat,
    gates: Seq<Seq<char>>,
    instrs: Seq<InstructionView<Address>>,
) -> bool {
    let m = instrs.len();
    &&& plan.len() == m + n
    &&& forall|k: int| 0 <= k < m ==> launch_for(#[trigger] plan[k], instrs[k], gates)
    &&& plan[m as int] == Launch::CalculateProbabilities
    &&& forall|p: int|
        1 <= p < n ==> #[trigger] plan[m + p] == (Launch::ReduceDistribution {
            pass: p as Address,
            global_size: pow2((n - p) as nat) as u64,
        })
}

impl<G> Computer<G> {
    pub open spec fn gates_view(&self) -> Seq<Seq<char>> {
        name_views(self.gate_names@)
    }

    pub open spec fn wf(&self) -> bool {
        &&& 1 <= self.size <= 64
        &&& self.gates@.len() == self.gate_names@.len()
        &&& distinct_names(self.gates_view())
    }

    /// Starts the construction of a computer of `size` qubits: at least one, and at
    /// most as many as the host's address has bits.
    pub fn new(size: Address) -> (r: Result<ComputerBuilder<G>, Error>)
        ensures
            r is Err <==> size == 0 || size > usize::BITS,
            r is Err ==> fails_with(r, Failure::InvalidRegisterSize(size)),
            r matches Ok(b) ==> b.wf() && b.size == size && b.gate_names@.len() == 0 && !b.built,
    {
        if size == 0 || size as u32 > usize::BITS {
            return Err(Error::InvalidRegisterSize(size));
        }
        Ok(ComputerBuilder { size, gate_names: Vec::new(), gates: Vec::new(), built: false })
    }
}

/// The position of `name` in `names`.
fn gate_index(names: &Vec<String>, name: &String) -> (r: Option<usize>)
    ensures
        r matches Some(k) ==> k < names@.len() && names@[k as int]@ == name@,
        r is None ==> !name_views(names@).contains(name@),
{
    let mut k: usize = 0;
    while k < names.len()
        invariant
            k <= names@.len(),
            forall|j: int| 0 <= j < k ==> names@[j]@ != name@,
        decreases names@.len() - k,
    {
        if names[k] == *name {
            return Some(k);
        }
        k = k + 1;
    }
    assert forall|j: int| 0 <= j < names@.len() implies name_views(names@)[j] != name@ by {}
    None
}

proof fn lemma_shift_is_pow2(k: u64)
    requires
        k < 64,
    ensures
        (1u64 << k) == pow2(k as nat),
        pow2(k as nat) <= u64::MAX,
{
    lemma2_to64();
    lemma2_to64_rest();
    if k < 63 {
        lemma_pow2_strictly_increases(k as nat, 63);
    }
    assert(1 * pow2(k as nat) == pow2(k as nat));
    vstd::bits::lemma_u64_shl_is_mul(1, k);
}

impl<G> ComputerBuilder<G> {
    pub open spec fn gates_view(&self) -> Seq<Seq<char>> {
        name_views(self.gate_names@)
    }

    pub open spec fn wf(&self) -> bool {
        &&& 1 <= self.size <= 64
        &&& self.gates@.len() == self.gate_names@.len()
        &&& distinct_names(self.gates_view())
    }

    /// Registers `gate` under `gate_name`.
    pub fn add_gate(&mut self, gate_name: &str, gate: G) -> (r: Result<(), Error>)
        requires
            old(self).wf(),
        ensures
            final(self).wf(),
            final(self).size == old(self).size,
            final(self).built == old(self).built,
            old(self).built ==> fails_with(r, Failure::BuilderSealed),
            !old(self).built && old(self).gates_view().contains(gate_name@) ==> fails_with(
                r,
                Failure::DuplicateGate(gate_name@),
            ),
            r is Ok <==> !old(self).built && !old(self).gates_view().contains(gate_name@),
            r is Ok ==> final(self).gates_view() == old(self).gates_view().push(gate_name@)
                && final(self).gates@ == old(self).gates@.push(gate),
            r is Err ==> final(self).gate_names@ == old(self).gate_names@ && final(self).gates@
                == old(self).gates@,
    {
        if self.built {
            return Err(Error::BuilderSealed);
        }
        let name = gate_name.to_owned();
        match gate_index(&self.gate_names, &name) {
            Some(k) => {
                assert(self.gates_view()[k as int] == gate_name@);
                return Err(Error::DuplicateGate(name));
            },
            None => {},
        }
        let ghost before = self.gate_names@;
        self.gate_names.push(name);
        self.gates.push(gate);
        assert(self.gates_view() =~= name_views(before).push(gate_name@));
        proof {
            assert forall|i: int, j: int| 0 <= i < j < self.gates_view().len() implies #[trigger] self.gates_view()[i]
                != #[trigger] self.gates_view()[j] by {
                if j == before.len() {
                    assert(name_views(before)[i] == self.gates_view()[i]);
                }
            }
        }
        Ok(())
    }

    /// Seals the table of gates and hands out the computer.
    pub fn build(&mut self) -> (r: Result<Computer<G>, Error>)
        requires
            old(self).wf(),
        ensures
            old(self).built ==> fails_with(r, Failure::BuilderSealed),
            r is Ok <==> !old(self).built,
            r is Err ==> *final(self) == *old(self),
            final(self).wf(),
            final(self).size == old(self).size,
            r matches Ok(c) ==> {
                &&& c.wf()
                &&& final(self).built
                &&& c.size == old(self).size
                &&& c.gates_view() == old(self).gates_view()
                &&& c.gates@ == old(self).gates@
            },
    {
        if self.built {
            return Err(Error::BuilderSealed);
        }
        self.built = true;
        let mut gate_names: Vec<String> = Vec::new();
        let mut gates: Vec<G> = Vec::new();
        core::mem::swap(&mut gate_names, &mut self.gate_names);
        core::mem::swap(&mut gates, &mut self.gates);
        Ok(Computer { size: self.size, gate_names, gates })
    }
}

impl<G> Computer<G> {
    /// Starts a program from the basis state written `initial_state`, `|b_{n-1}...b_0>`.
    pub fn new_program(&self, initial_state: &str) -> (r: Result<ProgramBuilder, Error>)
        requires
            self.wf(),
        ensures
            match r {
                Ok(b) => {
                    &&& b.wf()
                    &&& parse_ket(initial_state@, self.size as nat) == Ok::<u64, ParseRegisterError>(
                        b.initial_state,
                    )
                    &&& b.size == self.size
                    &&& b.gate_names@ == self.gate_names@
                    &&& b.instructions@.len() == 0
                    &&& b.subroutines@.len() == 0
                    &&& !b.measured
                },
                Err(e) => exists|p|
                    parse_ket(initial_state@, self.size as nat) == Err::<u64, ParseRegisterError>(p)
                        && e@ == Failure::InvalidInitialState(p),
            },
    {
        ProgramBuilder::new(self.size, clone_names(&self.gate_names), initial_state)
    }

    /// The kernel launches that run `program`: one per instruction, with the inverse
    /// where the instruction is reversed, then the probabilities and their reduction.
    pub fn launches(&self, program: &Program) -> (r: Result<Vec<Launch>, Error>)
        requires
            self.wf(),
        ensures
            match first_fault(
                self.size as nat,
                self.gates_view(),
                instruction_views(program.instructions@),
            ) {
                Some(f) => fails_with(r, f),
                None => r matches Ok(plan) && is_plan(
                    plan@,
                    self.size as nat,
                    self.gates_view(),
                    instruction_views(program.instructions@),
                ),
            },
    {
        let ghost views = instruction_views(program.instructions@);
        let ghost gates = self.gates_view();
        let n = self.size;
        let m = program.instructions.len();
        let mut plan: Vec<Launch> = Vec::new();
        let mut k: usize = 0;
        assert(views.subrange(0, views.len() as int) =~= views);
        while k < m
            invariant
                self.wf(),
                n == self.size,
                m == program.instructions@.len(),
                views == instruction_views(program.instructions@),
                gates == self.gates_view(),
                k <= m,
                plan@.len() == k,
                forall|j: int| 0 <= j < k ==> launch_for(#[trigger] plan@[j], views[j], gates),
                first_fault(n as nat, gates, views) == first_fault(
                    n as nat,
                    gates,
                    views.subrange(k as int, views.len() as int),
                ),
            decreases m - k,
        {
            let i = &program.instructions[k];
            let ghost rest = views.subrange(k as int, views.len() as int);
            assert(rest[0] == i@);
            assert(rest.drop_first() =~= views.subrange(k + 1, views.len() as int));
            let gate = match gate_index(&self.gate_names, &i.gate_name) {
                Some(g) => g,
                None => {
                    return Err(Error::UnknownGate(i.gate_name.clone()));
                },
            };
            assert(gates.contains(i@.gate)) by {
                assert(gates[gate as int] == i@.gate);
            }
            if i.target >= n {
                return Err(Error::AddressOutOfRange(i.target));
            }
            let launch = match i.control {
                Some(c) => {
                    if c >= n {
                        return Err(Error::AddressOutOfRange(c));
                    }
                    if c == i.target {
                        return Err(Error::TargetEqualsControl);
                    }
                    Launch::ApplyControlledGate {
                        gate,
                        inverse: i.reverse,
                        target: i.target,
                        control: c,
                    }
                },
                None => Launch::ApplyGate { gate, inverse: i.reverse, target: i.target },
            };
            plan.push(launch);
            k = k + 1;
        }
        plan.push(Launch::CalculateProbabilities);
        let mut p: u8 = 1;
        while p < n
            invariant
                1 <= p <= n,
                n == self.size,
                1 <= n <= 64,
                m == views.len(),
                plan@.len() == m + p,
                forall|j: int| 0 <= j < m ==> launch_for(#[trigger] plan@[j], views[j], gates),
                plan@[m as int] == Launch::CalculateProbabilities,
                forall|q: int|
                    1 <= q < p ==> #[trigger] plan@[m + q] == (Launch::ReduceDistribution {
                        pass: q as Address,
                        global_size: pow2((n - q) as nat) as u64,
                    }),
            decreases n - p,
        {
            proof {
                lemma_shift_is_pow2((n - p) as u64);
            }
            let global_size: u64 = 1u64 << ((n - p) as u64);
            plan.push(Launch::ReduceDistribution { pass: p, global_size });
            p = p + 1;
        }
        assert(views.subrange(k as int, views.len() as int).len() == 0);
        Ok(plan)
    }
}

} // verus!
