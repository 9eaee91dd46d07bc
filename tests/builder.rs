use trident::computer::{Computer, ComputerBuilder, Launch};
use trident::error::Error;
use trident::program::{Instruction, ProgramBuilder};
use trident::state::ParseRegisterError;

fn names(list: &[&str]) -> Vec<String> {
    list.iter().map(|s| s.to_string()).collect()
}

fn builder(size: u8, state: &str) -> ProgramBuilder {
    ProgramBuilder::new(size, names(&["1", "H", "X", "Y", "Z"]), state).unwrap()
}

fn shape(i: &Instruction) -> (String, u8, Option<u8>, bool) {
    (i.gate_name.clone(), i.target, i.control, i.reverse)
}

#[test]
fn apply_and_unapply_record_direction() {
    let mut b = builder(3, "|000>");
    b.apply("H", 0, None).unwrap();
    b.unapply("X", 2, Some(1)).unwrap();
    b.apply_iter("Z", &[0, 1], Some(2)).unwrap();
    b.unapply_iter("Y", &[2], None).unwrap();
    let p = b.measure(10).unwrap();
    assert_eq!(p.len(), 5);
    let got: Vec<_> = p.instructions.iter().map(shape).collect();
    assert_eq!(
        got,
        vec![
            ("H".to_string(), 0, None, false),
            ("X".to_string(), 2, Some(1), true),
            ("Z".to_string(), 0, Some(2), false),
            ("Z".to_string(), 1, Some(2), false),
            ("Y".to_string(), 2, None, true),
        ]
    );
    assert_eq!(p.samples, 10);
    assert_eq!(p.size, 3);
}

#[test]
fn builder_rejects_bad_instructions() {
    let mut b = builder(2, "|00>");
    assert!(matches!(b.apply("Q", 0, None), Err(Error::UnknownGate(g)) if g == "Q"));
    assert!(matches!(b.apply("H", 2, None), Err(Error::AddressOutOfRange(2))));
    assert!(matches!(b.apply("H", 0, Some(5)), Err(Error::AddressOutOfRange(5))));
    assert!(matches!(b.apply("X", 1, Some(1)), Err(Error::TargetEqualsControl)));
    assert!(matches!(b.apply_iter("H", &[0, 1, 7], None), Err(Error::AddressOutOfRange(7))));
    assert_eq!(b.instructions.len(), 0);
}

#[test]
fn sealed_builder_and_zero_samples() {
    let mut b = builder(1, "|1>");
    assert!(matches!(b.measure(0), Err(Error::ZeroSamples)));
    let p = b.measure(1).unwrap();
    assert_eq!(p.initial_state, 1);
    assert!(matches!(b.apply("H", 0, None), Err(Error::BuilderSealed)));
    assert!(matches!(b.measure(1), Err(Error::BuilderSealed)));
}

#[test]
fn initial_state_errors() {
    assert!(matches!(
        ProgramBuilder::new(2, names(&["H"]), "|0>"),
        Err(Error::InvalidInitialState(ParseRegisterError::WrongLength))
    ));
    assert!(matches!(
        ProgramBuilder::new(2, names(&["H"]), "[01>"),
        Err(Error::InvalidInitialState(ParseRegisterError::WrongFormat))
    ));
    assert!(matches!(
        ProgramBuilder::new(2, names(&["H"]), "|02>"),
        Err(Error::InvalidInitialState(ParseRegisterError::InvalidChar(2)))
    ));
}

#[test]
fn call_and_uncall_expand_subroutine() {
    let mut b = builder(2, "|00>");
    let mut s = b.new_subroutine("S", &['a', 'b']).unwrap();
    s.apply("H", 'a', None).unwrap();
    s.apply("X", 'b', Some('a')).unwrap();
    s.end(&mut b).unwrap();
    b.call("S", &[('a', 0), ('b', 1)]).unwrap();
    b.uncall("S", &[('b', 1), ('a', 0)]).unwrap();
    let p = b.measure(1).unwrap();
    let got: Vec<_> = p.instructions.iter().map(shape).collect();
    assert_eq!(
        got,
        vec![
            ("H".to_string(), 0, None, false),
            ("X".to_string(), 1, Some(0), false),
            ("X".to_string(), 1, Some(0), true),
            ("H".to_string(), 0, None, true),
        ]
    );
}

#[test]
fn uncall_reverses_and_flips() {
    let mut b = builder(3, "|000>");
    let mut s = b.new_subroutine("T", &['x', 'y', 'z']).unwrap();
    s.apply("H", 'x', None).unwrap();
    s.unapply("Y", 'y', Some('z')).unwrap();
    s.apply("Z", 'z', None).unwrap();
    s.end(&mut b).unwrap();
    b.uncall("T", &[('x', 2), ('y', 0), ('z', 1)]).unwrap();
    let got: Vec<_> = b.instructions.iter().map(shape).collect();
    assert_eq!(
        got,
        vec![
            ("Z".to_string(), 1, None, true),
            ("Y".to_string(), 0, Some(1), false),
            ("H".to_string(), 2, None, true),
        ]
    );
}

#[test]
fn binding_errors() {
    let mut b = builder(2, "|00>");
    let mut s = b.new_subroutine("S", &['a', 'b']).unwrap();
    s.apply("X", 'b', Some('a')).unwrap();
    s.end(&mut b).unwrap();
    assert!(matches!(b.call("R", &[('a', 0)]), Err(Error::UnknownSubroutine(n)) if n == "R"));
    assert!(matches!(b.call("S", &[('a', 0), ('c', 1)]), Err(Error::UnknownVariable('c'))));
    assert!(matches!(b.call("S", &[('a', 0), ('a', 1)]), Err(Error::DuplicateVariable('a'))));
    assert!(matches!(b.call("S", &[('a', 0)]), Err(Error::MissingBinding('b'))));
    assert!(matches!(b.call("S", &[('a', 1), ('b', 1)]), Err(Error::TargetEqualsControl)));
    assert!(matches!(b.uncall("S", &[('a', 0), ('b', 4)]), Err(Error::AddressOutOfRange(4))));
    assert_eq!(b.instructions.len(), 0);
}

#[test]
fn subroutine_definition_errors() {
    let mut b = builder(2, "|00>");
    assert!(matches!(b.new_subroutine("S", &['a', 'a']), Err(Error::DuplicateVariable('a'))));
    let mut s = b.new_subroutine("S", &['a']).unwrap();
    assert!(matches!(s.apply("H", 'b', None), Err(Error::UnknownVariable('b'))));
    assert!(matches!(s.apply("W", 'a', None), Err(Error::UnknownGate(_))));
    assert!(matches!(s.apply("X", 'a', Some('a')), Err(Error::TargetEqualsControl)));
    s.end(&mut b).unwrap();
    assert!(matches!(s.end(&mut b), Err(Error::BuilderSealed)));
    assert!(matches!(s.apply("H", 'a', None), Err(Error::BuilderSealed)));
    assert!(matches!(b.new_subroutine("S", &['c']), Err(Error::DuplicateSubroutine(n)) if n == "S"));
}

#[test]
fn computer_construction_errors() {
    assert!(matches!(Computer::<u8>::new(0), Err(Error::InvalidRegisterSize(0))));
    assert!(matches!(Computer::<u8>::new(200), Err(Error::InvalidRegisterSize(200))));
    let mut cb: ComputerBuilder<u8> = Computer::new(2).unwrap();
    cb.add_gate("H", 1).unwrap();
    assert!(matches!(cb.add_gate("H", 2), Err(Error::DuplicateGate(n)) if n == "H"));
    let c = cb.build().unwrap();
    assert_eq!(c.gates, vec![1]);
    assert!(matches!(cb.build(), Err(Error::BuilderSealed)));
    assert!(matches!(cb.add_gate("X", 3), Err(Error::BuilderSealed)));
    assert!(matches!(c.new_program("|0>"), Err(Error::InvalidInitialState(_))));
}

#[test]
fn launch_plan_selects_inverses_and_reductions() {
    let mut cb: ComputerBuilder<u8> = Computer::new(3).unwrap();
    cb.add_gate("H", 0).unwrap();
    cb.add_gate("X", 1).unwrap();
    let c = cb.build().unwrap();
    let mut b = c.new_program("|101>").unwrap();
    b.apply("H", 0, None).unwrap();
    b.unapply("X", 1, Some(2)).unwrap();
    let p = b.measure(5).unwrap();
    let plan = c.launches(&p).unwrap();
    assert_eq!(
        plan,
        vec![
            Launch::ApplyGate { gate: 0, inverse: false, target: 0 },
            Launch::ApplyControlledGate { gate: 1, inverse: true, target: 1, control: 2 },
            Launch::CalculateProbabilities,
            Launch::ReduceDistribution { pass: 1, global_size: 4 },
            Launch::ReduceDistribution { pass: 2, global_size: 2 },
        ]
    );
    assert_eq!(p.initial_state, 5);
}

#[test]
fn launch_plan_rejects_foreign_gates() {
    let mut cb: ComputerBuilder<u8> = Computer::new(1).unwrap();
    cb.add_gate("H", 0).unwrap();
    let c = cb.build().unwrap();
    let mut b = ProgramBuilder::new(1, names(&["Z"]), "|0>").unwrap();
    b.apply("Z", 0, None).unwrap();
    let p = b.measure(1).unwrap();
    assert!(matches!(c.launches(&p), Err(Error::UnknownGate(n)) if n == "Z"));
}

#[test]
fn subroutine_spreads_over_variables() {
    let mut b = builder(3, "|000>");
    let mut s = b.new_subroutine("W", &['p', 'q', 'r']).unwrap();
    s.apply_iter("H", &['p', 'q'], None).unwrap();
    s.unapply_iter("X", &['r'], Some('p')).unwrap();
    assert!(matches!(s.apply_iter("H", &['p', 'z'], None), Err(Error::UnknownVariable('z'))));
    assert_eq!(s.instructions.len(), 3);
    s.end(&mut b).unwrap();
    b.call("W", &[('p', 2), ('q', 0), ('r', 1)]).unwrap();
    let got: Vec<_> = b.instructions.iter().map(shape).collect();
    assert_eq!(
        got,
        vec![
            ("H".to_string(), 2, None, false),
            ("H".to_string(), 0, None, false),
            ("X".to_string(), 1, Some(2), true),
        ]
    );
}

#[test]
fn subroutine_calls_another() {
    let mut b = builder(3, "|000>");
    let mut inner = b.new_subroutine("Inner", &['a', 'b']).unwrap();
    inner.apply("H", 'a', None).unwrap();
    inner.apply("X", 'b', Some('a')).unwrap();
    inner.end(&mut b).unwrap();
    let mut outer = b.new_subroutine("Outer", &['x', 'y', 'z']).unwrap();
    outer.call(&b, "Inner", &[('a', 'x'), ('b', 'y')]).unwrap();
    outer.uncall(&b, "Inner", &[('a', 'z'), ('b', 'x')]).unwrap();
    assert!(matches!(outer.call(&b, "Inner", &[('a', 'x'), ('b', 'w')]), Err(Error::UnknownVariable('w'))));
    assert!(matches!(outer.call(&b, "Missing", &[]), Err(Error::UnknownSubroutine(_))));
    outer.end(&mut b).unwrap();
    b.call("Outer", &[('x', 0), ('y', 1), ('z', 2)]).unwrap();
    let got: Vec<_> = b.instructions.iter().map(shape).collect();
    assert_eq!(
        got,
        vec![
            ("H".to_string(), 0, None, false),
            ("X".to_string(), 1, Some(0), false),
            ("X".to_string(), 0, Some(2), true),
            ("H".to_string(), 2, None, true),
        ]
    );
}

fn hadamard_then_undo<A: Copy, C: trident::chain::InstructionChain<A>>(chain: &mut C, a: A, b: A) {
    chain.apply_iter("H", &[a, b], None).unwrap();
    chain.unapply("X", b, Some(a)).unwrap();
    chain.unapply_iter("H", &[b], None).unwrap();
    chain.apply("Z", a, None).unwrap();
}

#[test]
fn chain_drives_both_builders() {
    let mut b = builder(2, "|00>");
    let mut s = b.new_subroutine("C", &['u', 'v']).unwrap();
    hadamard_then_undo(&mut s, 'u', 'v');
    s.end(&mut b).unwrap();
    hadamard_then_undo(&mut b, 1u8, 0u8);
    b.call("C", &[('u', 0), ('v', 1)]).unwrap();
    let got: Vec<_> = b.instructions.iter().map(shape).collect();
    assert_eq!(
        got,
        vec![
            ("H".to_string(), 1, None, false),
            ("H".to_string(), 0, None, false),
            ("X".to_string(), 0, Some(1), true),
            ("H".to_string(), 0, None, true),
            ("Z".to_string(), 1, None, false),
            ("H".to_string(), 0, None, false),
            ("H".to_string(), 1, None, false),
            ("X".to_string(), 1, Some(0), true),
            ("H".to_string(), 1, None, true),
            ("Z".to_string(), 0, None, false),
        ]
    );
}
