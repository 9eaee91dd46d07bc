use trident::addressing::{control_set, pair_indices};
use trident::computer::{Computer, Launch};
use trident::error::Error;
use trident::hardware::{take_batch, QuantumComputer, QuantumHardware, Target};
use trident::measure::Measurements;
use trident::program::Program;
use trident::random::{MWC64X, MEASUREMENTS_BLOCK};

type Matrix = [[(f64, f64); 2]; 2];

fn mul(a: (f64, f64), b: (f64, f64)) -> (f64, f64) {
    (a.0 * b.0 - a.1 * b.1, a.0 * b.1 + a.1 * b.0)
}

fn add(a: (f64, f64), b: (f64, f64)) -> (f64, f64) {
    (a.0 + b.0, a.1 + b.1)
}

fn dagger(m: &Matrix) -> Matrix {
    [
        [(m[0][0].0, -m[0][0].1), (m[1][0].0, -m[1][0].1)],
        [(m[0][1].0, -m[0][1].1), (m[1][1].0, -m[1][1].1)],
    ]
}

/// A dense state-vector simulator on the host, used to run whole programs.
struct HostDevice {
    size: u8,
    gates: Vec<Matrix>,
    amplitudes: Vec<(f64, f64)>,
    probabilities: Vec<f64>,
    passes: Vec<u8>,
}

impl HostDevice {
    fn new(size: u8, gates: &[Matrix]) -> HostDevice {
        HostDevice {
            size,
            gates: gates.to_vec(),
            amplitudes: vec![(0.0, 0.0); 1 << size],
            probabilities: vec![],
            passes: vec![],
        }
    }

    fn apply(&mut self, gate: usize, inverse: bool, target: u8, control: Option<u8>) {
        let m = if inverse { dagger(&self.gates[gate]) } else { self.gates[gate] };
        for i in 0..(self.amplitudes.len() / 2) {
            let (base, other) = pair_indices(i as u64, target);
            if let Some(c) = control {
                if !control_set(base, c) {
                    continue;
                }
            }
            let (base, other) = (base as usize, other as usize);
            let (a0, a1) = (self.amplitudes[base], self.amplitudes[other]);
            self.amplitudes[base] = add(mul(m[0][0], a0), mul(m[0][1], a1));
            self.amplitudes[other] = add(mul(m[1][0], a0), mul(m[1][1], a1));
        }
    }
}

impl QuantumHardware for HostDevice {
    fn reset(&mut self, state: u64) -> Result<(), Error> {
        for a in self.amplitudes.iter_mut() {
            *a = (0.0, 0.0);
        }
        self.amplitudes[state as usize] = (1.0, 0.0);
        Ok(())
    }

    fn launch(&mut self, launch: Launch) -> Result<(), Error> {
        match launch {
            Launch::ApplyGate { gate, inverse, target } => self.apply(gate, inverse, target, None),
            Launch::ApplyControlledGate { gate, inverse, target, control } => {
                self.apply(gate, inverse, target, Some(control))
            }
            Launch::CalculateProbabilities => {
                self.probabilities = self.amplitudes.iter().map(|a| a.0 * a.0 + a.1 * a.1).collect();
            }
            Launch::ReduceDistribution { pass, global_size } => {
                assert_eq!(global_size, 1u64 << (self.size - pass));
                self.passes.push(pass);
            }
        }
        Ok(())
    }

    fn sample(&mut self, state: u64) -> Result<Vec<u64>, Error> {
        let total: f64 = self.probabilities.iter().sum();
        let mut out = Vec::with_capacity(MEASUREMENTS_BLOCK);
        for j in 0..MEASUREMENTS_BLOCK {
            let mut prng = MWC64X { state };
            prng.skip(2 * j as u64 + 1);
            let u = prng.next() as f64 / 4294967296.0;
            let mut acc = 0.0;
            let mut chosen = self.probabilities.len() - 1;
            for (k, p) in self.probabilities.iter().enumerate() {
                acc += p;
                if u * total < acc {
                    chosen = k;
                    break;
                }
            }
            out.push(chosen as u64);
        }
        Ok(out)
    }
}

fn standard_computer(size: u8) -> Computer<Matrix> {
    let s = std::f64::consts::FRAC_1_SQRT_2;
    let mut builder = Computer::<Matrix>::new(size).unwrap();
    builder.add_gate("1", [[(1.0, 0.0), (0.0, 0.0)], [(0.0, 0.0), (1.0, 0.0)]]).unwrap();
    builder.add_gate("H", [[(s, 0.0), (s, 0.0)], [(s, 0.0), (-s, 0.0)]]).unwrap();
    builder.add_gate("X", [[(0.0, 0.0), (1.0, 0.0)], [(1.0, 0.0), (0.0, 0.0)]]).unwrap();
    builder.add_gate("Y", [[(0.0, 0.0), (0.0, -1.0)], [(0.0, 1.0), (0.0, 0.0)]]).unwrap();
    builder.add_gate("Z", [[(1.0, 0.0), (0.0, 0.0)], [(0.0, 0.0), (-1.0, 0.0)]]).unwrap();
    builder.build().unwrap()
}

fn run(computer: &Computer<Matrix>, program: &Program, seed: u64) -> Measurements {
    let mut device = HostDevice::new(computer.size, &computer.gates);
    let draws = computer.run(&mut device, program, seed).unwrap();
    assert_eq!(draws.batches.len(), (program.samples + MEASUREMENTS_BLOCK - 1) / MEASUREMENTS_BLOCK);
    let mut kept = Vec::new();
    let mut left = program.samples;
    for answer in draws.batches.iter() {
        let take = left.min(MEASUREMENTS_BLOCK);
        kept.extend_from_slice(&answer[..take]);
        left -= take;
    }
    assert_eq!(kept, draws.states);
    let states = draws.states;
    assert_eq!(device.passes, (1..computer.size).collect::<Vec<u8>>());
    Measurements::new(std::time::Duration::from_millis(0), computer.size, program.samples, &states)
}

fn count(m: &Measurements, state: u64) -> usize {
    m.measures.iter().find(|x| x.state == state).map(|x| x.count).unwrap_or(0)
}

#[test]
fn hadamard_on_one_qubit() {
    let computer = standard_computer(1);
    let mut b = computer.new_program("|0>").unwrap();
    b.apply("H", 0, None).unwrap();
    let program = b.measure(10000).unwrap();
    let m = run(&computer, &program, 42);
    assert!((4500..=5500).contains(&count(&m, 0)));
    assert!((4500..=5500).contains(&count(&m, 1)));
}

#[test]
fn hadamard_on_two_qubits() {
    let computer = standard_computer(2);
    let mut b = computer.new_program("|00>").unwrap();
    b.apply_iter("H", &[0, 1], None).unwrap();
    let program = b.measure(10000).unwrap();
    let m = run(&computer, &program, 1);
    for state in 0..4 {
        assert!((2300..=2700).contains(&count(&m, state)), "state {}", state);
    }
}

#[test]
fn bell_pair() {
    let computer = standard_computer(2);
    let mut b = computer.new_program("|00>").unwrap();
    b.apply("H", 0, None).unwrap();
    b.apply("X", 1, Some(0)).unwrap();
    let program = b.measure(8192).unwrap();
    let m = run(&computer, &program, 3);
    assert_eq!(count(&m, 1), 0);
    assert_eq!(count(&m, 2), 0);
    assert!((3800..=4400).contains(&count(&m, 0)));
    assert!((3800..=4400).contains(&count(&m, 3)));
}

#[test]
fn reverse_identity() {
    let computer = standard_computer(3);
    let mut b = computer.new_program("|101>").unwrap();
    b.apply("H", 0, None).unwrap();
    b.apply("H", 1, None).unwrap();
    b.unapply("H", 1, None).unwrap();
    b.unapply("H", 0, None).unwrap();
    let program = b.measure(100).unwrap();
    let m = run(&computer, &program, 5);
    assert_eq!(count(&m, 0b101), 100);
    assert_eq!(m.measures.len(), 1);
}

#[test]
fn every_gate_undone_by_its_inverse() {
    let computer = standard_computer(2);
    for gate in ["H", "X", "Y", "Z"] {
        for target in 0..2u8 {
            for start in ["|00>", "|01>", "|10>", "|11>"] {
                let mut b = computer.new_program(start).unwrap();
                b.apply(gate, target, None).unwrap();
                b.unapply(gate, target, None).unwrap();
                let program = b.measure(1).unwrap();
                let mut device = HostDevice::new(2, &computer.gates);
                device.reset(program.initial_state).unwrap();
                for l in computer.launches(&program).unwrap() {
                    if let Launch::ApplyGate { .. } = l {
                        device.launch(l).unwrap();
                    }
                }
                for (k, a) in device.amplitudes.iter().enumerate() {
                    let expected = if k as u64 == program.initial_state { 1.0 } else { 0.0 };
                    assert!((a.0 - expected).abs() < 1e-5 && a.1.abs() < 1e-5);
                }
            }
        }
    }
}

#[test]
fn probabilities_sum_to_one() {
    let computer = standard_computer(3);
    let mut b = computer.new_program("|010>").unwrap();
    b.apply_iter("H", &[0, 1, 2], None).unwrap();
    b.apply("Y", 2, Some(0)).unwrap();
    let program = b.measure(1).unwrap();
    let mut device = HostDevice::new(3, &computer.gates);
    device.reset(program.initial_state).unwrap();
    for l in computer.launches(&program).unwrap() {
        device.launch(l).unwrap();
    }
    let total: f64 = device.probabilities.iter().sum();
    assert!((total - 1.0).abs() < 1e-5);
}

#[test]
fn subroutine_call_then_uncall_restores_state() {
    let computer = standard_computer(2);
    let mut b = computer.new_program("|00>").unwrap();
    let mut s = b.new_subroutine("S", &['a', 'b']).unwrap();
    s.apply("H", 'a', None).unwrap();
    s.apply("X", 'b', Some('a')).unwrap();
    s.end(&mut b).unwrap();
    b.call("S", &[('a', 0), ('b', 1)]).unwrap();
    b.uncall("S", &[('a', 0), ('b', 1)]).unwrap();
    let program = b.measure(1).unwrap();
    let m = run(&computer, &program, 11);
    assert_eq!(count(&m, 0), 1);
}

#[test]
fn same_seed_same_counts() {
    let computer = standard_computer(3);
    let build = || {
        let mut b = computer.new_program("|000>").unwrap();
        b.apply_iter("H", &[0, 1, 2], None).unwrap();
        b.measure(3000).unwrap()
    };
    let first = run(&computer, &build(), 99);
    let second = run(&computer, &build(), 99);
    assert_eq!(first.measures, second.measures);
}

#[test]
fn computer_on_host_hardware() {
    let computer = standard_computer(2);
    let qc = QuantumComputer::new(HostDevice::new(2, &computer.gates), 2);
    assert_eq!(qc.size(), 2);
    assert!(qc.targets.0.is_empty());
}

#[test]
fn batch_takes_its_first_draws() {
    let mut states = vec![9u64];
    take_batch(&mut states, &vec![1, 2, 3], 2).unwrap();
    assert_eq!(states, vec![9, 1, 2]);
    assert!(matches!(take_batch(&mut states, &vec![4], 2), Err(Error::DeviceFailure)));
    assert_eq!(states, vec![9, 1, 2]);
}

#[test]
fn targets_extend_when_disjoint() {
    let mut t = Target(vec![0, 2]);
    assert!(t.is_disjoint(&[1, 3]));
    assert!(!t.is_disjoint(&[3, 2]));
    t.shr(&[1, 3]);
    assert_eq!(t.0, vec![0, 2, 1, 3]);
}
