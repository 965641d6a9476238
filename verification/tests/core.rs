use roqoqo_core::builders::balanced_oracle;
use roqoqo_core::builders::bell_measurement_circuit;
use roqoqo_core::builders::checking_constant;
use roqoqo_core::builders::constant_oracle;
use roqoqo_core::builders::create_evolution_circuit;
use roqoqo_core::builders::deutsch_josza_circuit;
use roqoqo_core::builders::entangling_circuit;
use roqoqo_core::builders::evolution_parameter_names;
use roqoqo_core::builders::half_adder_main_block;
use roqoqo_core::builders::indexed_name;
use roqoqo_core::builders::measurement_suffix;
use roqoqo_core::builders::prep_psi;
use roqoqo_core::builders::statevector_readout;
use roqoqo_core::builders::teleportation_corrections;
use roqoqo_core::builders::xbasis_state_init;
use roqoqo_core::circuit::Circuit;
use roqoqo_core::circuit::OpKind;
use roqoqo_core::circuit::Operation;
use roqoqo_core::error::RoqoqoError;
use roqoqo_core::expression::eval;
use roqoqo_core::expression::Bindings;
use roqoqo_core::expression::CalcExpr;
use roqoqo_core::fixed::Fixed;
use roqoqo_core::fixed::FIXED_SCALE;
use roqoqo_core::measurement::combine_terms;
use roqoqo_core::measurement::expectation_of_rows;
use roqoqo_core::measurement::PauliZProductInput;
use roqoqo_core::program::EvaluatingBackend;
use roqoqo_core::program::PauliZProduct;
use roqoqo_core::program::QuantumProgram;
use roqoqo_core::registers::BitRegister;
use roqoqo_core::registers::Registers;

fn fx(units: i64) -> Fixed {
    Fixed::from_units(units)
}

fn name(s: &str) -> Vec<u8> {
    s.as_bytes().to_vec()
}

fn hadamard(q: usize) -> Operation {
    Operation::Hadamard { qubit: q }
}

fn cnot(c: usize, t: usize) -> Operation {
    Operation::CNOT { control: c, target: t }
}

fn circuit_of(ops: Vec<Operation>) -> Circuit {
    let mut c = Circuit::new();
    for op in ops {
        c.add_operation(op);
    }
    c
}

#[test]
fn entangling_circuit_contents() {
    let c = entangling_circuit();
    assert_eq!(c.len(), 3);
    let expected = circuit_of(vec![hadamard(0), hadamard(1), cnot(0, 1)]);
    assert_eq!(c, expected);
    let kinds = c.get_operation_types();
    assert_eq!(kinds.len(), 2);
    assert!(kinds.contains(&OpKind::Hadamard));
    assert!(kinds.contains(&OpKind::CNOT));
}

#[test]
fn concat_is_associative() {
    let a = circuit_of(vec![hadamard(0)]);
    let b = circuit_of(vec![cnot(0, 1)]);
    let c = circuit_of(vec![hadamard(1), cnot(1, 2)]);
    let a2 = circuit_of(vec![hadamard(0)]);
    let b2 = circuit_of(vec![cnot(0, 1)]);
    let c2 = circuit_of(vec![hadamard(1), cnot(1, 2)]);
    let left = a.concat(b).concat(c);
    let right = a2.concat(b2.concat(c2));
    assert_eq!(left, right);
    assert_eq!(left.len(), 4);
}

#[test]
fn concat_identity() {
    let a = circuit_of(vec![hadamard(0), cnot(0, 1)]);
    let b = circuit_of(vec![hadamard(0), cnot(0, 1)]);
    assert_eq!(a.concat(Circuit::new()), b);
    let a = circuit_of(vec![hadamard(0), cnot(0, 1)]);
    assert_eq!(Circuit::new().concat(a), b);
}

#[test]
fn substitution_replaces_symbolic_angles() {
    let mut c = Circuit::new();
    c.add_operation(Operation::RotateZ {
        qubit: 0,
        theta: CalcExpr::Variable { name: name("theta") },
    });
    c.add_operation(hadamard(1));
    let mut b = Bindings::new();
    b.push(name("theta"), fx(250_000));
    let bound = c.substitute_parameters(&b).unwrap();
    let expected = circuit_of(vec![
        Operation::RotateZ { qubit: 0, theta: CalcExpr::Literal { value: fx(250_000) } },
        hadamard(1),
    ]);
    assert_eq!(bound, expected);
    assert!(bound.symbolic_parameters().is_empty());
    // the template is reusable: a second binding gives the same result
    let bound_again = c.substitute_parameters(&b).unwrap();
    assert_eq!(bound_again, expected);
}

#[test]
fn substitution_missing_name_fails() {
    let mut c = Circuit::new();
    c.add_operation(Operation::RotateX {
        qubit: 2,
        theta: CalcExpr::Variable { name: name("alpha") },
    });
    let b = Bindings::new();
    let r = c.substitute_parameters(&b);
    assert_eq!(r, Err(RoqoqoError::UnboundParameter { name: name("alpha") }));
}

#[test]
fn symbolic_parameters_are_collected_once() {
    let expr = CalcExpr::Mul {
        left: Box::new(CalcExpr::Variable { name: name("a") }),
        right: Box::new(CalcExpr::Variable { name: name("b") }),
    };
    let mut c = Circuit::new();
    c.add_operation(Operation::RotateZ { qubit: 0, theta: expr });
    c.add_operation(Operation::RotateY {
        qubit: 1,
        theta: CalcExpr::Variable { name: name("a") },
    });
    let params = c.symbolic_parameters();
    assert_eq!(params.len(), 2);
    assert!(params.contains(&name("a")));
    assert!(params.contains(&name("b")));
}

#[test]
fn expression_evaluation_is_exact() {
    // (a + 1.5) * 2 with a = 0.25 gives exactly 3.5
    let expr = CalcExpr::Mul {
        left: Box::new(CalcExpr::Add {
            left: Box::new(CalcExpr::Variable { name: name("a") }),
            right: Box::new(CalcExpr::Literal { value: fx(1_500_000) }),
        }),
        right: Box::new(CalcExpr::Literal { value: fx(2_000_000) }),
    };
    let mut b = Bindings::new();
    b.push(name("a"), fx(250_000));
    assert_eq!(eval(&expr, &b), Ok(fx(3_500_000)));
}

#[test]
fn expression_division_by_zero_fails() {
    let expr = CalcExpr::Div {
        left: Box::new(CalcExpr::Literal { value: fx(1_000_000) }),
        right: Box::new(CalcExpr::Literal { value: fx(0) }),
    };
    let b = Bindings::new();
    assert_eq!(eval(&expr, &b), Err(RoqoqoError::DivisionByZero));
}

#[test]
fn expression_overflow_fails() {
    let expr = CalcExpr::Add {
        left: Box::new(CalcExpr::Literal { value: fx(i64::MAX) }),
        right: Box::new(CalcExpr::Literal { value: fx(1) }),
    };
    let b = Bindings::new();
    assert_eq!(eval(&expr, &b), Err(RoqoqoError::NumericOverflow));
}

#[test]
fn fixed_arithmetic_truncates_toward_zero() {
    assert_eq!(fx(3_000_000).checked_mul(fx(500_000)), Some(fx(1_500_000)));
    // -7 / 2 = -3.5 exactly
    assert_eq!(fx(-7_000_000).checked_div(fx(2_000_000)), Some(fx(-3_500_000)));
    // -1 / 3 truncates toward zero: -0.333333
    assert_eq!(fx(-1_000_000).checked_div(fx(3_000_000)), Some(fx(-333_333)));
    assert_eq!(fx(1).checked_div(fx(0)), None);
    assert_eq!(FIXED_SCALE, 1_000_000);
}

fn two_term_input() -> PauliZProductInput {
    let mut input = PauliZProductInput::new(2);
    let first = input.add_pauliz_product(name("ro"), vec![0]).unwrap();
    let second = input.add_pauliz_product(name("ro"), vec![0, 1]).unwrap();
    assert_eq!(first, 0);
    assert_eq!(second, 1);
    input
        .add_linear_exp_val(name("example"), vec![(0, fx(3_000_000)), (1, fx(1_000_000))])
        .unwrap();
    input
}

fn rows(bits: &[&[bool]]) -> Vec<Vec<bool>> {
    bits.iter().map(|r| r.to_vec()).collect()
}

fn bit_results(register: &str, shots: Vec<Vec<bool>>) -> Vec<Registers> {
    let mut regs = Registers::new();
    regs.bit_registers.push(BitRegister { name: name(register), shots });
    vec![regs]
}

#[test]
fn construction_rejects_wide_qubits() {
    let mut input = PauliZProductInput::new(2);
    let r = input.add_pauliz_product(name("ro"), vec![0, 2]);
    assert_eq!(r, Err(RoqoqoError::QubitOutOfRange { qubit: 2, number_qubits: 2 }));
}

#[test]
fn construction_rejects_undeclared_terms() {
    let mut input = PauliZProductInput::new(2);
    input.add_pauliz_product(name("ro"), vec![0]).unwrap();
    let r = input.add_linear_exp_val(name("bad"), vec![(0, fx(1)), (7, fx(1))]);
    assert_eq!(r, Err(RoqoqoError::MalformedSpec { term: 7 }));
    let r = input.add_linear_exp_val(name("dup"), vec![(0, fx(1)), (0, fx(2))]);
    assert_eq!(r, Err(RoqoqoError::MalformedSpec { term: 0 }));
}

#[test]
fn expectation_of_even_parity_rows_is_one() {
    // ideal samples of the entangled pair: both bits always equal
    let shots = rows(&[&[false, false], &[true, true], &[true, true], &[false, false]]);
    let e = expectation_of_rows(&shots, &vec![0, 1], &name("ro")).unwrap();
    assert_eq!(e, fx(1_000_000));
}

#[test]
fn bell_circuit_and_parity_scenario() {
    // the two-qubit circuit {Hadamard(0), CNOT(0,1)} with a sampled readout
    let c = bell_measurement_circuit(name("ro"), 10);
    assert_eq!(c.len(), 4);
    let mut input = PauliZProductInput::new(2);
    input.add_pauliz_product(name("ro"), vec![0, 1]).unwrap();
    input.add_linear_exp_val(name("parity"), vec![(0, fx(1_000_000))]).unwrap();
    // ideal backend rows: the parity of the two bits is always even
    let results = bit_results(
        "ro",
        rows(&[&[false, false], &[true, true], &[false, false], &[true, true]]),
    );
    let out = input.evaluate(&results).unwrap();
    assert_eq!(out.len(), 1);
    assert_eq!(out[0].0, name("parity"));
    assert_eq!(out[0].1, fx(1_000_000));
}

#[test]
fn linear_combination_is_exact() {
    // product terms measured in separate registers, for exact control
    let mut input = PauliZProductInput::new(2);
    input.add_pauliz_product(name("a"), vec![0]).unwrap();
    input.add_pauliz_product(name("b"), vec![0]).unwrap();
    input
        .add_linear_exp_val(name("example"), vec![(0, fx(3_000_000)), (1, fx(1_000_000))])
        .unwrap();
    let mut regs = Registers::new();
    // four shots, one odd: (3 - 1) / 4 = 0.5
    regs.bit_registers.push(BitRegister {
        name: name("a"),
        shots: rows(&[&[false], &[false], &[false], &[true]]),
    });
    // five shots, three odd: (2 - 3) / 5 = -0.2
    regs.bit_registers.push(BitRegister {
        name: name("b"),
        shots: rows(&[&[true], &[true], &[true], &[false], &[false]]),
    });
    let out = input.evaluate(&vec![regs]).unwrap();
    assert_eq!(out.len(), 1);
    assert_eq!(out[0].0, name("example"));
    // 3.0 * 0.5 + 1.0 * (-0.2) = 1.3 exactly
    assert_eq!(out[0].1, fx(1_300_000));
}

#[test]
fn combine_terms_is_exact() {
    let terms = vec![(0usize, fx(3_000_000)), (1usize, fx(1_000_000))];
    let evs = vec![fx(500_000), fx(-200_000)];
    assert_eq!(combine_terms(&terms, &evs), Ok(fx(1_300_000)));
}

#[test]
fn aggregation_is_deterministic() {
    let input = two_term_input();
    let results = bit_results(
        "ro",
        rows(&[&[false, true], &[true, true], &[false, false], &[true, false]]),
    );
    let first = input.evaluate(&results).unwrap();
    let second = input.evaluate(&results).unwrap();
    assert_eq!(first, second);
}

#[test]
fn missing_register_fails() {
    let input = two_term_input();
    let mut regs = Registers::new();
    regs.bit_registers.push(BitRegister {
        name: name("other"),
        shots: rows(&[&[false, false]]),
    });
    let r = input.evaluate(&vec![regs]);
    assert_eq!(r, Err(RoqoqoError::MissingMeasurement { register: name("ro") }));
}

#[test]
fn empty_register_fails() {
    let input = two_term_input();
    let results = bit_results("ro", Vec::new());
    let r = input.evaluate(&results);
    assert_eq!(r, Err(RoqoqoError::EmptySample { register: name("ro") }));
}

#[test]
fn short_row_fails() {
    let input = two_term_input();
    // term 1 reads bit 1, but the row has a single bit
    let results = bit_results("ro", rows(&[&[false]]));
    let r = input.evaluate(&results);
    assert_eq!(r, Err(RoqoqoError::ReadoutIndexOutOfRange { register: name("ro"), index: 1 }));
}

#[test]
fn rows_are_gathered_across_results() {
    let mut input = PauliZProductInput::new(1);
    input.add_pauliz_product(name("ro"), vec![0]).unwrap();
    input.add_linear_exp_val(name("z"), vec![(0, fx(1_000_000))]).unwrap();
    let mut first = Registers::new();
    first.bit_registers.push(BitRegister { name: name("ro"), shots: rows(&[&[true]]) });
    let mut second = Registers::new();
    second.bit_registers.push(BitRegister { name: name("ro"), shots: rows(&[&[false]]) });
    let out = input.evaluate(&vec![first, second]).unwrap();
    // two shots, one odd: (1 - 1) / 2 = 0
    assert_eq!(out[0].1, fx(0));
}

fn example_measurement() -> PauliZProduct {
    let mut circuit = Circuit::new();
    circuit.add_operation(Operation::DefinitionBit {
        name: name("ro"),
        length: 2,
        is_output: true,
    });
    circuit.add_operation(Operation::PauliX { qubit: 0 });
    circuit.add_operation(cnot(0, 1));
    circuit.add_operation(Operation::PragmaRepeatedMeasurement {
        readout: name("ro"),
        number_measurements: 10,
        qubit_mapping: None,
    });
    PauliZProduct { input: two_term_input(), circuits: vec![circuit], constant_circuit: None }
}

#[test]
fn measurement_round_trip() {
    let m = example_measurement();
    let bytes = m.to_bytes();
    let back = PauliZProduct::from_bytes(&bytes).unwrap();
    assert_eq!(back, m);
}

#[test]
fn program_round_trip() {
    let mut circuit = Circuit::new();
    circuit.add_operation(Operation::RotateZ {
        qubit: 0,
        theta: CalcExpr::Variable { name: name("theta") },
    });
    circuit.add_operation(Operation::PragmaConditional {
        condition_register: name("m"),
        condition_index: 0,
        circuit: circuit_of(vec![Operation::PauliZ { qubit: 1 }]),
    });
    let mut input = PauliZProductInput::new(2);
    input.add_pauliz_product(name("ro"), vec![1]).unwrap();
    input.add_linear_exp_val(name("z1"), vec![(0, fx(-2_500_000))]).unwrap();
    let program = QuantumProgram {
        measurement: PauliZProduct {
            input,
            circuits: vec![circuit],
            constant_circuit: Some(circuit_of(vec![hadamard(0)])),
        },
        input_parameter_names: vec![name("theta")],
    };
    let bytes = program.to_bytes();
    let back = QuantumProgram::from_bytes(&bytes).unwrap();
    assert_eq!(back, program);
}

#[test]
fn corrupted_buffer_is_rejected() {
    let m = example_measurement();
    let mut bytes = m.to_bytes();
    bytes.pop();
    assert!(PauliZProduct::from_bytes(&bytes).is_none());
    let mut bytes = m.to_bytes();
    bytes.push(b'0');
    assert!(PauliZProduct::from_bytes(&bytes).is_none());
}

struct FixedRowsBackend {
    shots: Vec<Vec<bool>>,
}

impl EvaluatingBackend for FixedRowsBackend {
    fn run_circuit(&self, _circuit: &Circuit) -> Result<Registers, RoqoqoError> {
        let mut regs = Registers::new();
        regs.bit_registers.push(BitRegister { name: name("ro"), shots: self.shots.clone() });
        Ok(regs)
    }
}

struct FailingBackend;

impl EvaluatingBackend for FailingBackend {
    fn run_circuit(&self, _circuit: &Circuit) -> Result<Registers, RoqoqoError> {
        Err(RoqoqoError::Backend { message: name("offline") })
    }
}

fn example_program() -> QuantumProgram {
    let mut circuit = Circuit::new();
    circuit.add_operation(Operation::RotateZ {
        qubit: 0,
        theta: CalcExpr::Variable { name: name("theta") },
    });
    QuantumProgram {
        measurement: PauliZProduct {
            input: two_term_input(),
            circuits: vec![circuit],
            constant_circuit: None,
        },
        input_parameter_names: vec![name("theta")],
    }
}

#[test]
fn program_run_aggregates_backend_rows() {
    let program = example_program();
    let backend = FixedRowsBackend {
        shots: rows(&[&[false, false], &[false, true], &[true, false], &[false, false]]),
    };
    let out = program.run(&backend, &vec![fx(100_000)]).unwrap();
    // term 0 (bit 0): one odd of four: (3 - 1) / 4 = 0.5
    // term 1 (parity): two odd of four: (2 - 2) / 4 = 0
    // 3.0 * 0.5 + 1.0 * 0 = 1.5
    assert_eq!(out, vec![(name("example"), fx(1_500_000))]);
}

#[test]
fn program_run_rejects_wrong_parameter_count() {
    let program = example_program();
    let backend = FixedRowsBackend { shots: rows(&[&[false, false]]) };
    let r = program.run(&backend, &vec![]);
    assert_eq!(r, Err(RoqoqoError::ParameterCountMismatch { expected: 1, actual: 0 }));
}

#[test]
fn program_run_surfaces_unbound_parameters() {
    // the circuit mentions a name the program does not declare, so the
    // binding failure itself must come back, never a substitute error
    let mut circuit = Circuit::new();
    circuit.add_operation(Operation::RotateZ {
        qubit: 0,
        theta: CalcExpr::Variable { name: name("phi") },
    });
    let program = QuantumProgram {
        measurement: PauliZProduct {
            input: two_term_input(),
            circuits: vec![circuit],
            constant_circuit: None,
        },
        input_parameter_names: vec![name("theta")],
    };
    let backend = FixedRowsBackend { shots: rows(&[&[false, false]]) };
    let r = program.run(&backend, &vec![fx(0)]);
    assert_eq!(r, Err(RoqoqoError::UnboundParameter { name: name("phi") }));
}

#[test]
fn program_run_without_circuits_is_fully_determined() {
    // no circuits: the backend is never consulted; a declared product
    // term then has no register anywhere and fails as missing
    let program = QuantumProgram {
        measurement: PauliZProduct {
            input: two_term_input(),
            circuits: vec![],
            constant_circuit: None,
        },
        input_parameter_names: vec![],
    };
    let values: Vec<Fixed> = vec![];
    let r = program.run(&FailingBackend, &values);
    assert_eq!(r, Err(RoqoqoError::MissingMeasurement { register: name("ro") }));

    // no circuits and no product terms: an empty combination still has
    // its exact value, zero
    let mut input = PauliZProductInput::new(1);
    input.add_linear_exp_val(name("empty"), vec![]).unwrap();
    let program = QuantumProgram {
        measurement: PauliZProduct { input, circuits: vec![], constant_circuit: None },
        input_parameter_names: vec![],
    };
    let r = program.run(&FailingBackend, &values);
    assert_eq!(r, Ok(vec![(name("empty"), fx(0))]));
}

#[test]
fn program_run_propagates_backend_errors() {
    let program = example_program();
    let r = program.run(&FailingBackend, &vec![fx(0)]);
    assert_eq!(r, Err(RoqoqoError::Backend { message: name("offline") }));
}

#[test]
fn prepare_circuits_binds_constant_prefix() {
    let program = QuantumProgram {
        measurement: PauliZProduct {
            input: PauliZProductInput::new(1),
            circuits: vec![circuit_of(vec![Operation::RotateZ {
                qubit: 0,
                theta: CalcExpr::Variable { name: name("theta") },
            }])],
            constant_circuit: Some(circuit_of(vec![hadamard(0)])),
        },
        input_parameter_names: vec![name("theta")],
    };
    let bound = program.prepare_circuits(&vec![fx(700_000)]).unwrap();
    let expected = circuit_of(vec![
        hadamard(0),
        Operation::RotateZ { qubit: 0, theta: CalcExpr::Literal { value: fx(700_000) } },
    ]);
    assert_eq!(bound, vec![expected]);
}

#[test]
fn deutsch_josza_constant_oracle_scenario() {
    let number_qubits = 2;
    let dj = deutsch_josza_circuit(number_qubits, constant_oracle(number_qubits));
    // flip work qubit, three Hadamard gates, oracle, two closing gates
    assert_eq!(dj.len(), 1 + 2 + 1 + 1 + 2);
    let full = dj.concat(measurement_suffix(name("ro"), number_qubits));
    assert_eq!(full.len(), 7 + 1 + 2);
    // under ideal sampling a constant oracle always reads all-clear rows
    assert!(checking_constant(&vec![false, false]));
    assert!(!checking_constant(&vec![true, false]));
    assert!(!checking_constant(&vec![false, true]));
}

#[test]
fn balanced_oracle_contents() {
    let oracle = balanced_oracle(2);
    let expected = circuit_of(vec![cnot(0, 2), cnot(1, 2)]);
    assert_eq!(oracle, expected);
}

#[test]
fn half_adder_block_contents() {
    let quarter = fx(785_398);
    let block = half_adder_main_block(quarter);
    assert_eq!(block.len(), 11);
    let kinds = block.get_operation_types();
    assert_eq!(kinds.len(), 3);
    assert!(kinds.contains(&OpKind::CNOT));
    assert!(kinds.contains(&OpKind::RotateY));
    assert!(kinds.contains(&OpKind::Hadamard));
}

#[test]
fn teleportation_pieces() {
    let psi = prep_psi(fx(3_141_593), fx(0));
    assert_eq!(psi.len(), 2);
    let corrections = teleportation_corrections(&name("M1M2"));
    assert_eq!(corrections.len(), 2);
    let readout = statevector_readout(name("psi"), 8);
    assert_eq!(readout.len(), 2);
    let init = xbasis_state_init();
    assert_eq!(init.len(), 5);
    let full = psi.concat(corrections).concat(readout).concat(init);
    assert_eq!(full.len(), 11);
}

#[test]
fn evolution_circuit_shape() {
    let even = name("theta_even_");
    let odd = name("theta_odd_");
    let z = name("theta_z_");
    // three qubits: one even block (7 ops), one odd block plus boundary
    // (14 ops), three magnetic rotations, per iteration
    let c = create_evolution_circuit(2, 3, fx(3_000_000), fx(1_000_000), &even, &odd, &z);
    assert_eq!(c.len(), 2 * (7 + 14 + 3));
    let names = evolution_parameter_names(2, &even, &odd, &z);
    assert_eq!(names.len(), 6);
    assert_eq!(names[0], indexed_name(&even, 0));
    assert_eq!(names[1], indexed_name(&odd, 0));
    assert_eq!(names[2], indexed_name(&z, 0));
    assert_eq!(names[3], indexed_name(&even, 1));
    // every symbolic parameter of the circuit is one of the six names
    let params = c.symbolic_parameters();
    assert_eq!(params.len(), 6);
    for p in &params {
        assert!(names.contains(p));
    }
}

#[test]
fn evolution_binds_completely() {
    let even = name("e_");
    let odd = name("o_");
    let z = name("z_");
    let c = create_evolution_circuit(1, 3, fx(3_000_000), fx(1_000_000), &even, &odd, &z);
    let mut b = Bindings::new();
    b.push(indexed_name(&even, 0), fx(100_000));
    b.push(indexed_name(&odd, 0), fx(200_000));
    b.push(indexed_name(&z, 0), fx(-300_000));
    let bound = c.substitute_parameters(&b).unwrap();
    assert!(bound.symbolic_parameters().is_empty());
    assert_eq!(bound.len(), c.len());
    // omitting one name fails with that unbound name
    let mut partial = Bindings::new();
    partial.push(indexed_name(&even, 0), fx(100_000));
    let r = c.substitute_parameters(&partial);
    assert_eq!(r, Err(RoqoqoError::UnboundParameter { name: indexed_name(&odd, 0) }));
}

#[test]
fn parameter_names_mention_the_circuit() {
    let c = circuit_of(vec![Operation::RotateY {
        qubit: 0,
        theta: CalcExpr::Variable { name: name("phi") },
    }]);
    let params = c.symbolic_parameters();
    assert_eq!(params, vec![name("phi")]);
}
