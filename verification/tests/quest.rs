//! End-to-end scenarios against the real QuEST simulator: circuits are
//! built and aggregated by the library, the sampling itself runs on the
//! simulator.

use roqoqo::backends::EvaluatingBackend as RoqoqoEvaluatingBackend;
use roqoqo::operations as ops;

use roqoqo_core::builders::bell_measurement_circuit;
use roqoqo_core::builders::checking_constant;
use roqoqo_core::builders::constant_oracle;
use roqoqo_core::builders::deutsch_josza_circuit;
use roqoqo_core::builders::measurement_suffix;
use roqoqo_core::circuit::{Circuit, Operation};
use roqoqo_core::fixed::Fixed;
use roqoqo_core::measurement::PauliZProductInput;
use roqoqo_core::registers::{BitRegister, Registers};

fn name(s: &str) -> Vec<u8> {
    s.as_bytes().to_vec()
}

/// Translates the operations these scenarios use into roqoqo form.
fn to_roqoqo(circuit: &Circuit) -> roqoqo::Circuit {
    let mut out = roqoqo::Circuit::new();
    for op in circuit.operations.iter() {
        match op {
            Operation::Hadamard { qubit } => out.add_operation(ops::Hadamard::new(*qubit)),
            Operation::PauliX { qubit } => out.add_operation(ops::PauliX::new(*qubit)),
            Operation::CNOT { control, target } => {
                out.add_operation(ops::CNOT::new(*control, *target))
            }
            Operation::DefinitionBit { name, length, is_output } => out.add_operation(
                ops::DefinitionBit::new(
                    String::from_utf8(name.clone()).unwrap(),
                    *length,
                    *is_output,
                ),
            ),
            Operation::MeasureQubit { qubit, readout, readout_index } => out.add_operation(
                ops::MeasureQubit::new(
                    *qubit,
                    String::from_utf8(readout.clone()).unwrap(),
                    *readout_index,
                ),
            ),
            Operation::PragmaRepeatedMeasurement { readout, number_measurements, .. } => out
                .add_operation(ops::PragmaRepeatedMeasurement::new(
                    String::from_utf8(readout.clone()).unwrap(),
                    *number_measurements,
                    None,
                )),
            other => panic!("scenario uses an unexpected operation: {other:?}"),
        }
    }
    out
}

fn simulate(circuit: &Circuit, number_qubits: usize) -> Registers {
    let backend = roqoqo_quest::Backend::new(number_qubits, None);
    let (bits, _, _) = backend
        .run_circuit(&to_roqoqo(circuit))
        .expect("the simulator runs the scenario circuit");
    let mut regs = Registers::new();
    for (reg_name, shots) in bits {
        regs.bit_registers.push(BitRegister { name: reg_name.into_bytes(), shots });
    }
    regs
}

#[test]
fn entangled_pair_parity_is_one() {
    // the two-qubit circuit {Hadamard(0), CNOT(0,1)}, sampled many times
    let circuit = bell_measurement_circuit(name("ro"), 500);
    let results = vec![simulate(&circuit, 2)];
    let mut input = PauliZProductInput::new(2);
    input.add_pauliz_product(name("ro"), vec![0, 1]).unwrap();
    input
        .add_linear_exp_val(name("parity"), vec![(0, Fixed::from_units(1_000_000))])
        .unwrap();
    let out = input.evaluate(&results).unwrap();
    // the two bits are ideally correlated, so the parity is always even
    // and the estimated expectation is exactly one
    assert_eq!(out[0].1, Fixed::from_units(1_000_000));
}

#[test]
fn constant_oracle_reads_all_clear() {
    let number_qubits = 2;
    let circuit = deutsch_josza_circuit(number_qubits, constant_oracle(number_qubits))
        .concat(measurement_suffix(name("ro"), number_qubits));
    let results = simulate(&circuit, number_qubits + 1);
    let rows = &results
        .bit_registers
        .iter()
        .find(|r| r.name == name("ro"))
        .expect("the readout register is present")
        .shots;
    assert!(!rows.is_empty());
    for row in rows {
        assert_eq!(row, &vec![false, false]);
        assert!(checking_constant(row));
    }
}
