use vstd::prelude::*;

use crate::computer::{Computer, Launch};
use crate::error::{fails_with, Error, Failure};
use crate::program::{first_fault, instruction_views, Program};
use crate::random::{batch_count, batch_take, sampling_schedule, Batch};

verus! {

/// A device that holds the amplitude buffer and runs the kernels on it.
pub trait QuantumHardware {

    /// Sets the buffer to the basis state `state`.
    fn reset(&mut self, state: u64) -> Result<(), Error>;

    /// Runs one kernel over the buffer.
    fn launch(&mut self, launch: Launch) -> Result<(), Error>;

    /// Runs the sampling kernel from the generator state `state` and reads back the
    /// drawn basis states.
    fn sample(&mut self, state: u64) -> Result<Vec<u64>, Error>;
}

/// The qubits that the next gate application targets.
pub struct Target(pub Vec<usize>);

/// `a` and `b` share no qubit.
pub open spec fn disjoint(a: Seq<usize>, b: Seq<usize>) -> bool {
    forall|i: int, j: int| 0 <= i < a.len() && 0 <= j < b.len() ==> a[i] != b[j]
}

impl Target {
    /// Whether none of `rhs` is targeted already.
    pub fn is_disjoint(&self, rhs: &[usize]) -> (r: bool)
        ensures
            r == disjoint(self.0@, rhs@),
    {
        let mut i: usize = 0;
        while i < self.0.len()
            invariant
                i <= self.0@.len(),
                forall|p: int, q: int| 0 <= p < i && 0 <= q < rhs@.len() ==> self.0@[p] != rhs@[q],
            decreases self.0@.len() - i,
        {
            let mut j: usize = 0;
            while j < rhs.len()
                invariant
                    i < self.0@.len(),
                    j <= rhs@.len(),
                    forall|p: int, q: int| 0 <= p < i && 0 <= q < rhs@.len() ==> self.0@[p] != rhs@[q],
                    forall|q: int| 0 <= q < j ==> self.0@[i as int] != rhs@[q],
                decreases rhs@.len() - j,
            {
                if self.0[i] == rhs[j] {
                    return false;
                }
                j = j + 1;
            }
            i = i + 1;
        }
        true
    }

    /// Adds the qubits `rhs`, none of which may be targeted already.
    pub fn shr(&mut self, rhs: &[usize])
        requires
            disjoint(old(self).0@, rhs@),
        ensures
            final(self).0@ == old(self).0@ + rhs@,
    {
        let ghost before = self.0@;
        let mut k: usize = 0;
        while k < rhs.len()
            invariant
                k <= rhs@.len(),
                self.0@ == before + rhs@.subrange(0, k as int),
            decreases rhs@.len() - k,
        {
            self.0.push(rhs[k]);
            k = k + 1;
            assert(self.0@ =~= before + rhs@.subrange(0, k as int));
        }
        assert(rhs@.subrange(0, k as int) =~= rhs@);
    }
}

/// A computer of `size` qubits on some hardware.
pub struct QuantumComputer<H: QuantumHardware> {
    pub hardware: H,
    pub size: usize,
    pub targets: Target,
}

/// A group of `N` qubits.
pub struct Qbits<const N: usize>;

/// A single qubit.
pub type Qbit = Qbits<1>;

impl<H: QuantumHardware> QuantumComputer<H> {
    /// A computer of `size` qubits on `hardware`, with no targets selected.
    pub fn new(hardware: H, size: usize) -> (r: QuantumComputer<H>)
        ensures
            r.hardware == hardware,
            r.size == size,
            r.targets.0@.len() == 0,
    {
        QuantumComputer { hardware, size, targets: Target(Vec::new()) }
    }

    /// The number of qubits.
    pub fn size(&self) -> (r: usize)
        ensures
            r == self.size,
    {
        self.size
    }
}

/// What one run drew: the device's answer to each batch, in batch order, and the states
/// kept from them.
pub struct Draws {
    pub batches: Vec<Vec<u64>>,
    pub states: Vec<u64>,
}

/// The views of the answers of a run.
pub open spec fn answer_views(v: Seq<Vec<u64>>) -> Seq<Seq<u64>> {
    v.map_values(|a: Vec<u64>| a@)
}

/// The states kept from the first `b` answers: the first `batch_take` states of each, in
/// batch order. The kept states are a function of the answers alone, so two runs whose
/// device answers agree keep the same states, and by `lemma_ranked_tally_unique` they
/// yield identical counts.
pub open spec fn kept_draws(answers: Seq<Seq<u64>>, samples: nat, b: nat) -> Seq<u64>
    decreases b,
{
    if b == 0 {
        Seq::empty()
    } else {
        kept_draws(answers, samples, (b - 1) as nat) + answers[b - 1].subrange(
            0,
            batch_take(samples, (b - 1) as nat) as int,
        )
    }
}

/// Kept states depend only on the answers they are kept from.
proof fn lemma_kept_draws_prefix(a: Seq<Seq<u64>>, b: Seq<Seq<u64>>, samples: nat, n: nat)
    requires
        n <= a.len(),
        n <= b.len(),
        forall|i: int| 0 <= i < n ==> a[i] == b[i],
    ensures
        kept_draws(a, samples, n) == kept_draws(b, samples, n),
    decreases n,
{
    if n > 0 {
        lemma_kept_draws_prefix(a, b, samples, (n - 1) as nat);
    }
}

/// Appends the first `take` states of one batch's draws; a batch shorter than `take` is a
/// failure of the device.
pub fn take_batch(states: &mut Vec<u64>, drawn: &Vec<u64>, take: usize) -> (r: Result<(), Error>)
    ensures
        r is Err <==> drawn@.len() < take,
        r is Err ==> fails_with(r, Failure::DeviceFailure) && final(states)@ == old(states)@,
        r is Ok ==> final(states)@ == old(states)@ + drawn@.subrange(0, take as int),
{
    if drawn.len() < take {
        return Err(Error::DeviceFailure);
    }
    let ghost before = states@;
    let mut i: usize = 0;
    while i < take
        invariant
            i <= take <= drawn@.len(),
            states@ == before + drawn@.subrange(0, i as int),
        decreases take - i,
    {
        states.push(drawn[i]);
        i = i + 1;
        assert(states@ =~= before + drawn@.subrange(0, i as int));
    }
    Ok(())
}

impl<G> Computer<G> {
    /// Runs `program` on `hardware`: the buffer is set to the initial state, the launches
    /// of `launches` are run in order, and batch `b` of `sampling_schedule(seed, ...)` is
    /// drawn from its state; `batches[b]` is the device's answer. The states kept are the
    /// first `take` of each answer, `program.samples` in all. A failure of the device, or
    /// an answer shorter than its batch, ends the run.
    pub fn run<H: QuantumHardware>(&self, hardware: &mut H, program: &Program, seed: u64) -> (r:
        Result<Draws, Error>)
        requires
            self.wf(),
        ensures
            first_fault(self.size as nat, self.gates_view(), instruction_views(program.instructions@))
                matches Some(f) ==> fails_with(r, f),
            r matches Ok(d) ==> {
                &&& d.batches@.len() == batch_count(program.samples as nat)
                &&& d.states@.len() == program.samples
                &&& d.states@ == kept_draws(
                    answer_views(d.batches@),
                    program.samples as nat,
                    batch_count(program.samples as nat),
                )
            },
    {
        let plan = match self.launches(program) {
            Ok(plan) => plan,
            Err(e) => {
                return Err(e);
            },
        };
        match hardware.reset(program.initial_state) {
            Ok(()) => {},
            Err(e) => {
                return Err(e);
            },
        }
        let mut k: usize = 0;
        while k < plan.len()
            invariant
                k <= plan@.len(),
                first_fault(self.size as nat, self.gates_view(), instruction_views(program.instructions@)) is None,
            decreases plan@.len() - k,
        {
            match hardware.launch(plan[k]) {
                Ok(()) => {},
                Err(e) => {
                    return Err(e);
                },
            }
            k = k + 1;
        }
        let batches: Vec<Batch> = sampling_schedule(seed, program.samples);
        let mut answers: Vec<Vec<u64>> = Vec::new();
        let mut states: Vec<u64> = Vec::new();
        let mut b: usize = 0;
        while b < batches.len()
            invariant
                b <= batches@.len(),
                answers@.len() == b,
                first_fault(self.size as nat, self.gates_view(), instruction_views(program.instructions@)) is None,
                states@.len() == crate::random::drawn_before(program.samples as nat, b as nat),
                states@ == kept_draws(answer_views(answers@), program.samples as nat, b as nat),
                batches@.len() == batch_count(program.samples as nat),
                batches@.len() * crate::random::MEASUREMENTS_BLOCK >= program.samples,
                batches@.len() == 0 || (batches@.len() - 1) * crate::random::MEASUREMENTS_BLOCK
                    < program.samples,
                forall|j: int|
                    0 <= j < batches@.len() ==> (#[trigger] batches@[j]).take == batch_take(
                        program.samples as nat,
                        j as nat,
                    ),
            decreases batches@.len() - b,
        {
            let batch = batches[b];
            let answer = match hardware.sample(batch.state) {
                Ok(v) => v,
                Err(e) => {
                    return Err(e);
                },
            };
            match take_batch(&mut states, &answer, batch.take) {
                Ok(()) => {},
                Err(e) => {
                    return Err(e);
                },
            }
            let ghost before = answers@;
            answers.push(answer);
            proof {
                crate::random::lemma_drawn_step(program.samples as nat, b as nat, batches@.len());
                lemma_kept_draws_prefix(answer_views(before), answer_views(answers@), program.samples as nat, b as nat);
                assert(answer_views(answers@)[b as int] == answers@[b as int]@);
            }
            b = b + 1;
        }
        proof {
            crate::random::lemma_drawn_all(program.samples as nat, batches@.len());
        }
        Ok(Draws { batches: answers, states })
    }
}

} // verus!
