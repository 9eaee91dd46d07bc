use vstd::prelude::*;

use crate::error::{fails_with, Error, Failure};
use crate::state::{parse_ket, parse_state, ParseRegisterError};

verus! {

/// The address of a qubit in the register.
pub type Address = u8;

/// One gate application: a gate by name, a target, an optional control, and whether
/// its inverse is applied. `T` is a qubit address, or a variable of a
/// sub-routine.
#[derive(Debug)]
pub struct SingleInstruction<T> {
    pub gate_name: String,
    pub target: T,
    pub control: Option<T>,
    pub reverse: bool,
}

/// An instruction on concrete qubit addresses.
pub type Instruction = SingleInstruction<Address>;

/// The mathematical content of a [`SingleInstruction`].
pub struct InstructionView<T> {
    pub gate: Seq<char>,
    pub target: T,
    pub control: Option<T>,
    pub reverse: bool,
}

impl<T: Copy> View for SingleInstruction<T> {
    type V = InstructionView<T>;

    open spec fn view(&self) -> InstructionView<T> {
        InstructionView {
            gate: self.gate_name@,
            target: self.target,
            control: self.control,
            reverse: self.reverse,
        }
    }
}

/// The views of a sequence of instructions.
pub open spec fn instruction_views<T: Copy>(s: Seq<SingleInstruction<T>>) -> Seq<
    InstructionView<T>,
> {
    s.map_values(|i: SingleInstruction<T>| i@)
}

/// The views of a sequence of names.
pub open spec fn name_views(s: Seq<String>) -> Seq<Seq<char>> {
    s.map_values(|g: String| g@)
}

/// Why an instruction cannot stand in a program on `n` qubits with the gates `gates`.
pub open spec fn instruction_fault(n: nat, gates: Seq<Seq<char>>, i: InstructionView<Address>) -> Option<
    Failure,
> {
    if !gates.contains(i.gate) {
        Some(Failure::UnknownGate(i.gate))
    } else if i.target >= n {
        Some(Failure::AddressOutOfRange(i.target))
    } else {
        match i.control {
            Some(c) => if c >= n {
                Some(Failure::AddressOutOfRange(c))
            } else if c == i.target {
                Some(Failure::TargetEqualsControl)
            } else {
                None
            },
            None => None,
        }
    }
}

/// The fault of the first instruction of `s` that has one.
pub open spec fn first_fault(n: nat, gates: Seq<Seq<char>>, s: Seq<InstructionView<Address>>) -> Option<
    Failure,
>
    decreases s.len(),
{
    if s.len() == 0 {
        None
    } else {
        match instruction_fault(n, gates, s[0]) {
            Some(f) => Some(f),
            None => first_fault(n, gates, s.drop_first()),
        }
    }
}

/// The first fault of a concatenation is the first fault of its first part, if any.
pub proof fn lemma_first_fault_append(
    n: nat,
    gates: Seq<Seq<char>>,
    a: Seq<InstructionView<Address>>,
    b: Seq<InstructionView<Address>>,
)
    ensures
        first_fault(n, gates, a + b) == match first_fault(n, gates, a) {
            Some(f) => Some(f),
            None => first_fault(n, gates, b),
        },
    decreases a.len(),
{
    if a.len() > 0 {
        assert((a + b).drop_first() =~= a.drop_first() + b);
        assert((a + b)[0] == a[0]);
        lemma_first_fault_append(n, gates, a.drop_first(), b);
    } else {
        assert(a + b =~= b);
    }
}

/// The instructions that applying `gate` to each of `targets` pushes.
pub open spec fn spread<T>(
    gate: Seq<char>,
    targets: Seq<T>,
    control: Option<T>,
    reverse: bool,
) -> Seq<InstructionView<T>> {
    Seq::new(
        targets.len(),
        |k: int| InstructionView { gate, target: targets[k], control, reverse },
    )
}

/// A sealed, validated program: an initial basis state, the instructions to apply in
/// order, and the number of samples to draw.
#[derive(Debug)]
pub struct Program {
    pub size: Address,
    pub initial_state: u64,
    pub instructions: Vec<Instruction>,
    pub samples: usize,
}

impl Program {
    /// The number of instructions.
    pub fn len(&self) -> (r: usize)
        ensures
            r == self.instructions@.len(),
    {
        self.instructions.len()
    }
}

/// A named block of symbolic instructions over the variables it declares.
pub struct SubRoutine {
    pub name: String,
    pub variables: Vec<char>,
    pub instructions: Vec<SingleInstruction<char>>,
}

impl SubRoutine {
    /// Every instruction uses declared variables only.
    pub open spec fn wf(&self) -> bool {
        forall|k: int|
            0 <= k < self.instructions@.len() ==> {
                let i = #[trigger] self.instructions@[k];
                &&& self.variables@.contains(i.target)
                &&& (i.control matches Some(c) ==> self.variables@.contains(c))
            }
    }
}

/// Builds a [`Program`] for a register of `size` qubits, checking each instruction
/// against the register and the registered gates as it comes.
pub struct ProgramBuilder {
    pub size: Address,
    pub gate_names: Vec<String>,
    pub initial_state: u64,
    pub instructions: Vec<Instruction>,
    pub subroutines: Vec<SubRoutine>,
    pub measured: bool,
}

/// Copies a list of names.
pub fn clone_names(names: &Vec<String>) -> (r: Vec<String>)
    ensures
        r@ == names@,
{
    let mut r: Vec<String> = Vec::new();
    let mut k: usize = 0;
    while k < names.len()
        invariant
            k <= names@.len(),
            r@ == names@.subrange(0, k as int),
        decreases names@.len() - k,
    {
        r.push(names[k].clone());
        k = k + 1;
        assert(r@ =~= names@.subrange(0, k as int));
    }
    assert(r@ =~= names@);
    r
}

/// Whether `name` is one of `names`.
pub fn contains_name(names: &Vec<String>, name: &str) -> (r: bool)
    ensures
        r == name_views(names@).contains(name@),
{
    let wanted = name.to_owned();
    let mut k: usize = 0;
    while k < names.len()
        invariant
            k <= names@.len(),
            wanted@ == name@,
            forall|j: int| 0 <= j < k ==> names@[j]@ != name@,
        decreases names@.len() - k,
    {
        if names[k] == wanted {
            assert(name_views(names@)[k as int] == name@);
            return true;
        }
        k = k + 1;
    }
    assert forall|j: int| 0 <= j < names@.len() implies name_views(names@)[j] != name@ by {}
    false
}

impl ProgramBuilder {
    pub open spec fn gates(&self) -> Seq<Seq<char>> {
        name_views(self.gate_names@)
    }

    /// The register size is in range, every recorded instruction is valid for it and the
    /// gates, and the sub-routines are well formed with distinct names.
    pub open spec fn wf(&self) -> bool {
        &&& 1 <= self.size <= 64
        &&& first_fault(self.size as nat, self.gates(), instruction_views(self.instructions@)) is None
        &&& forall|k: int| 0 <= k < self.subroutines@.len() ==> #[trigger] self.subroutines@[k].wf()
        &&& forall|i: int, j: int|
            0 <= i < j < self.subroutines@.len() ==> #[trigger] self.subroutines@[i].name@
                != #[trigger] self.subroutines@[j].name@
    }

    /// The sub-routine named `name`, when there is one.
    pub open spec fn subroutine(&self, name: Seq<char>) -> SubRoutine {
        self.subroutines@[choose|k: int|
            0 <= k < self.subroutines@.len() && #[trigger] self.subroutines@[k].name@ == name]
    }

    pub open spec fn has_subroutine(&self, name: Seq<char>) -> bool {
        exists|k: int| 0 <= k < self.subroutines@.len() && #[trigger] self.subroutines@[k].name@ == name
    }

    /// Starts a program on `size` qubits from the basis state written `initial_state`,
    /// with the gates named `gate_names` available.
    pub fn new(size: Address, gate_names: Vec<String>, initial_state: &str) -> (r: Result<
        ProgramBuilder,
        Error,
    >)
        requires
            1 <= size <= 64,
        ensures
            match r {
                Ok(b) => {
                    &&& b.wf()
                    &&& parse_ket(initial_state@, size as nat) == Ok::<u64, ParseRegisterError>(b.initial_state)
                    &&& b.size == size
                    &&& b.gate_names@ == gate_names@
                    &&& b.instructions@.len() == 0
                    &&& b.subroutines@.len() == 0
                    &&& !b.measured
                },
                Err(e) => exists|p|
                    parse_ket(initial_state@, size as nat) == Err::<u64, ParseRegisterError>(p)
                        && e@ == Failure::InvalidInitialState(p),
            },
    {
        match parse_state(size, initial_state) {
            Ok(state) => Ok(
                ProgramBuilder {
                    size,
                    gate_names,
                    initial_state: state,
                    instructions: Vec::new(),
                    subroutines: Vec::new(),
                    measured: false,
                },
            ),
            Err(p) => Err(Error::InvalidInitialState(p)),
        }
    }

    /// The fault of one instruction, checked against this builder's register and gates.
    fn check(&self, gate_name: &str, target: Address, control: Option<Address>) -> (r: Result<
        (),
        Error,
    >)
        ensures
            match instruction_fault(
                self.size as nat,
                self.gates(),
                InstructionView { gate: gate_name@, target, control, reverse: false },
            ) {
                Some(f) => fails_with(r, f),
                None => r is Ok,
            },
    {
        if !contains_name(&self.gate_names, gate_name) {
            return Err(Error::UnknownGate(gate_name.to_owned()));
        }
        if target >= self.size {
            return Err(Error::AddressOutOfRange(target));
        }
        match control {
            Some(c) => {
                if c >= self.size {
                    return Err(Error::AddressOutOfRange(c));
                }
                if c == target {
                    return Err(Error::TargetEqualsControl);
                }
            },
            None => {},
        }
        Ok(())
    }

    /// Appends one instruction after checking it.
    pub fn push_instruction(
        &mut self,
        gate_name: &str,
        target: Address,
        control: Option<Address>,
        reverse: bool,
    ) -> (r: Result<(), Error>)
        ensures
            old(self).wf() ==> final(self).wf(),
            final(self).size == old(self).size,
            final(self).gate_names@ == old(self).gate_names@,
            final(self).initial_state == old(self).initial_state,
            final(self).subroutines@ == old(self).subroutines@,
            final(self).measured == old(self).measured,
            old(self).measured ==> fails_with(r, Failure::BuilderSealed),
            !old(self).measured ==> match instruction_fault(
                old(self).size as nat,
                old(self).gates(),
                InstructionView { gate: gate_name@, target, control, reverse },
            ) {
                Some(f) => fails_with(r, f),
                None => r is Ok,
            },
            r is Ok ==> instruction_views(final(self).instructions@) == instruction_views(
                old(self).instructions@,
            ).push(InstructionView { gate: gate_name@, target, control, reverse }),
            r is Err ==> final(self).instructions@ == old(self).instructions@,
    {
        if self.measured {
            return Err(Error::BuilderSealed);
        }
        match self.check(gate_name, target, control) {
            Ok(()) => {},
            Err(e) => {
                return Err(e);
            },
        }
        let ghost before = self.instructions@;
        self.instructions.push(
            SingleInstruction { gate_name: gate_name.to_owned(), target, control, reverse },
        );
        let ghost x = InstructionView { gate: gate_name@, target, control, reverse };
        assert(instruction_views(self.instructions@) =~= instruction_views(before).push(x));
        proof {
            assert(instruction_views(before).push(x) =~= instruction_views(before) + seq![x]);
            assert(seq![x].drop_first() =~= Seq::<InstructionView<Address>>::empty());
            assert(instruction_fault(self.size as nat, self.gates(), x) is None);
            assert(first_fault(self.size as nat, self.gates(), seq![x].drop_first()) is None);
            assert(first_fault(self.size as nat, self.gates(), seq![x]) is None);
            lemma_first_fault_append(self.size as nat, self.gates(), instruction_views(before), seq![x]);
        }
        Ok(())
    }

    /// Applies gate `gate_name` to `target`, under `control` if given.
    pub fn apply(&mut self, gate_name: &str, target: Address, control: Option<Address>) -> (r:
        Result<(), Error>)
        ensures
            old(self).wf() ==> final(self).wf(),
            final(self).size == old(self).size,
            final(self).gate_names@ == old(self).gate_names@,
            final(self).initial_state == old(self).initial_state,
            final(self).subroutines@ == old(self).subroutines@,
            final(self).measured == old(self).measured,
            old(self).measured ==> fails_with(r, Failure::BuilderSealed),
            !old(self).measured ==> match instruction_fault(
                old(self).size as nat,
                old(self).gates(),
                InstructionView { gate: gate_name@, target, control, reverse: false },
            ) {
                Some(f) => fails_with(r, f),
                None => r is Ok,
            },
            r is Ok ==> instruction_views(final(self).instructions@) == instruction_views(
                old(self).instructions@,
            ).push(InstructionView { gate: gate_name@, target, control, reverse: false }),
            r is Err ==> final(self).instructions@ == old(self).instructions@,
    {
        self.push_instruction(gate_name, target, control, false)
    }

    /// Applies the inverse of gate `gate_name` to `target`, under `control` if given.
    pub fn unapply(&mut self, gate_name: &str, target: Address, control: Option<Address>) -> (r:
        Result<(), Error>)
        ensures
            old(self).wf() ==> final(self).wf(),
            final(self).size == old(self).size,
            final(self).gate_names@ == old(self).gate_names@,
            final(self).initial_state == old(self).initial_state,
            final(self).subroutines@ == old(self).subroutines@,
            final(self).measured == old(self).measured,
            old(self).measured ==> fails_with(r, Failure::BuilderSealed),
            !old(self).measured ==> match instruction_fault(
                old(self).size as nat,
                old(self).gates(),
                InstructionView { gate: gate_name@, target, control, reverse: true },
            ) {
                Some(f) => fails_with(r, f),
                None => r is Ok,
            },
            r is Ok ==> instruction_views(final(self).instructions@) == instruction_views(
                old(self).instructions@,
            ).push(InstructionView { gate: gate_name@, target, control, reverse: true }),
            r is Err ==> final(self).instructions@ == old(self).instructions@,
    {
        self.push_instruction(gate_name, target, control, true)
    }

    /// Checks then appends a whole sequence of instructions; on a fault nothing is appended.
    pub(crate) fn push_all(&mut self, block: Vec<Instruction>) -> (r: Result<(), Error>)
        ensures
            old(self).wf() ==> final(self).wf(),
            final(self).size == old(self).size,
            final(self).gate_names@ == old(self).gate_names@,
            final(self).initial_state == old(self).initial_state,
            final(self).subroutines@ == old(self).subroutines@,
            final(self).measured == old(self).measured,
            old(self).measured ==> fails_with(r, Failure::BuilderSealed),
            !old(self).measured ==> match first_fault(
                old(self).size as nat,
                old(self).gates(),
                instruction_views(block@),
            ) {
                Some(f) => fails_with(r, f),
                None => r is Ok,
            },
            r is Ok ==> instruction_views(final(self).instructions@) == instruction_views(
                old(self).instructions@,
            ) + instruction_views(block@),
            r is Err ==> final(self).instructions@ == old(self).instructions@,
    {
        if self.measured {
            return Err(Error::BuilderSealed);
        }
        let ghost views = instruction_views(block@);
        assert(views.subrange(0, views.len() as int) =~= views);
        let mut k: usize = 0;
        while k < block.len()
            invariant
                k <= block@.len(),
                !self.measured,
                views == instruction_views(block@),
                first_fault(self.size as nat, self.gates(), views) == first_fault(
                    self.size as nat,
                    self.gates(),
                    views.subrange(k as int, views.len() as int),
                ),
            decreases block@.len() - k,
        {
            let i = &block[k];
            let ghost rest = views.subrange(k as int, views.len() as int);
            assert(rest[0] == i@);
            assert(rest.drop_first() =~= views.subrange(k + 1, views.len() as int));
            match self.check(i.gate_name.as_str(), i.target, i.control) {
                Ok(()) => {},
                Err(e) => {
                    return Err(e);
                },
            }
            k = k + 1;
        }
        assert(views.subrange(k as int, views.len() as int).len() == 0);
        let ghost before = self.instructions@;
        let mut block = block;
        self.instructions.append(&mut block);
        assert(instruction_views(self.instructions@) =~= instruction_views(before) + views);
        proof {
            lemma_first_fault_append(self.size as nat, self.gates(), instruction_views(before), views);
        }
        Ok(())
    }

    /// Applies gate `gate_name` to each of `targets` in order, under `control` if given.
    pub fn apply_iter(&mut self, gate_name: &str, targets: &[Address], control: Option<Address>) -> (r:
        Result<(), Error>)
        ensures
            old(self).wf() ==> final(self).wf(),
            final(self).size == old(self).size,
            final(self).gate_names@ == old(self).gate_names@,
            final(self).initial_state == old(self).initial_state,
            final(self).subroutines@ == old(self).subroutines@,
            final(self).measured == old(self).measured,
            old(self).measured ==> fails_with(r, Failure::BuilderSealed),
            !old(self).measured ==> match first_fault(
                old(self).size as nat,
                old(self).gates(),
                spread(gate_name@, targets@, control, false),
            ) {
                Some(f) => fails_with(r, f),
                None => r is Ok,
            },
            r is Ok ==> instruction_views(final(self).instructions@) == instruction_views(
                old(self).instructions@,
            ) + spread(gate_name@, targets@, control, false),
            r is Err ==> final(self).instructions@ == old(self).instructions@,
    {
        let block = spread_block(gate_name, targets, control, false);
        self.push_all(block)
    }

    /// Applies the inverse of gate `gate_name` to each of `targets` in order, under
    /// `control` if given.
    pub fn unapply_iter(
        &mut self,
        gate_name: &str,
        targets: &[Address],
        control: Option<Address>,
    ) -> (r: Result<(), Error>)
        ensures
            old(self).wf() ==> final(self).wf(),
            final(self).size == old(self).size,
            final(self).gate_names@ == old(self).gate_names@,
            final(self).initial_state == old(self).initial_state,
            final(self).subroutines@ == old(self).subroutines@,
            final(self).measured == old(self).measured,
            old(self).measured ==> fails_with(r, Failure::BuilderSealed),
            !old(self).measured ==> match first_fault(
                old(self).size as nat,
                old(self).gates(),
                spread(gate_name@, targets@, control, true),
            ) {
                Some(f) => fails_with(r, f),
                None => r is Ok,
            },
            r is Ok ==> instruction_views(final(self).instructions@) == instruction_views(
                old(self).instructions@,
            ) + spread(gate_name@, targets@, control, true),
            r is Err ==> final(self).instructions@ == old(self).instructions@,
    {
        let block = spread_block(gate_name, targets, control, true);
        self.push_all(block)
    }

    /// Seals the builder and hands out the program, to be sampled `samples` times. Every
    /// instruction of a program measured from a well-formed builder is valid for its
    /// register and gates, so `Computer::launches` accepts it.
    pub fn measure(&mut self, samples: usize) -> (r: Result<Program, Error>)
        ensures
            old(self).wf() ==> final(self).wf(),
            final(self).size == old(self).size,
            final(self).gate_names@ == old(self).gate_names@,
            final(self).initial_state == old(self).initial_state,
            final(self).subroutines@ == old(self).subroutines@,
            old(self).measured ==> fails_with(r, Failure::BuilderSealed),
            !old(self).measured && samples == 0 ==> fails_with(r, Failure::ZeroSamples),
            r is Ok <==> !old(self).measured && samples > 0,
            r is Err ==> *final(self) == *old(self),
            r matches Ok(p) ==> {
                &&& !old(self).measured
                &&& samples > 0
                &&& final(self).measured
                &&& final(self).instructions@.len() == 0
                &&& p.size == old(self).size
                &&& p.initial_state == old(self).initial_state
                &&& p.instructions@ == old(self).instructions@
                &&& p.samples == samples
                &&& old(self).wf() ==> first_fault(
                    p.size as nat,
                    old(self).gates(),
                    instruction_views(p.instructions@),
                ) is None
            },
    {
        if self.measured {
            return Err(Error::BuilderSealed);
        }
        if samples == 0 {
            return Err(Error::ZeroSamples);
        }
        self.measured = true;
        let mut instructions: Vec<Instruction> = Vec::new();
        core::mem::swap(&mut instructions, &mut self.instructions);
        Ok(
            Program {
                size: self.size,
                initial_state: self.initial_state,
                instructions,
                samples,
            },
        )
    }
}

/// One instruction per target, all with the same gate, control and direction.
pub(crate) fn spread_block<T: Copy>(gate_name: &str, targets: &[T], control: Option<T>, reverse: bool) -> (r:
    Vec<SingleInstruction<T>>)
    ensures
        instruction_views(r@) == spread(gate_name@, targets@, control, reverse),
{
    let mut r: Vec<SingleInstruction<T>> = Vec::new();
    let mut k: usize = 0;
    while k < targets.len()
        invariant
            k <= targets@.len(),
            r@.len() == k,
            instruction_views(r@) == spread(gate_name@, targets@.subrange(0, k as int), control, reverse),
        decreases targets@.len() - k,
    {
        let ghost before = r@;
        let g = gate_name.to_owned();
        let ghost v = InstructionView { gate: g@, target: targets@[k as int], control, reverse };
        r.push(SingleInstruction { gate_name: g, target: targets[k], control, reverse });
        k = k + 1;
        proof {
            let sp = spread(gate_name@, targets@.subrange(0, k as int), control, reverse);
            let old_sp = spread(gate_name@, targets@.subrange(0, k - 1), control, reverse);
            assert(r@ == before.push(r@[k - 1]));
            assert(r@[k - 1]@ == v);
            assert forall|j: int| 0 <= j < k implies #[trigger] instruction_views(r@)[j] == sp[j] by {
                if j < k - 1 {
                    assert(instruction_views(r@)[j] == instruction_views(before)[j]);
                    assert(old_sp[j] == sp[j]);
                }
            }
            assert(instruction_views(r@) =~= sp);
        }
    }
    assert(targets@.subrange(0, k as int) =~= targets@);
    r
}

} // verus!
