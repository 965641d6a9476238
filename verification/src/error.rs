//! The library's error taxonomy.
//!
//! Every failure a verified function can report is a variant here, and
//! each function's contract says exactly on which inputs each variant
//! comes back.

use vstd::prelude::*;

verus! {

/// Errors surfaced by circuit binding, measurement aggregation and
/// program evaluation.
#[derive(Clone, Debug, PartialEq, Eq)]
pub enum RoqoqoError {
    /// Substitution met a symbolic name with no binding.
    UnboundParameter { name: Vec<u8> },
    /// A program was handed a parameter list of the wrong length.
    ParameterCountMismatch { expected: usize, actual: usize },
    /// A linear combination references a product term that was never
    /// declared, or repeats a term index.
    MalformedSpec { term: usize },
    /// A product term reads a qubit at or beyond the declared width.
    QubitOutOfRange { qubit: usize, number_qubits: usize },
    /// A product term's register never appears in any backend result.
    MissingMeasurement { register: Vec<u8> },
    /// A product term's register holds no shots at all.
    EmptySample { register: Vec<u8> },
    /// A shot row is too short for a declared readout index.
    ReadoutIndexOutOfRange { register: Vec<u8>, index: usize },
    /// Exact arithmetic left the representable range.
    NumericOverflow,
    /// A symbolic expression divides by zero.
    DivisionByZero,
    /// An opaque failure reported by a backend, passed through unchanged.
    Backend { message: Vec<u8> },
}

/// Mathematical mirror of `RoqoqoError`, used in contracts.
pub enum SpecError {
    UnboundParameter { name: Seq<u8> },
    ParameterCountMismatch { expected: int, actual: int },
    MalformedSpec { term: int },
    QubitOutOfRange { qubit: int, number_qubits: int },
    MissingMeasurement { register: Seq<u8> },
    EmptySample { register: Seq<u8> },
    ReadoutIndexOutOfRange { register: Seq<u8>, index: int },
    NumericOverflow,
    DivisionByZero,
    Backend { message: Seq<u8> },
}

impl View for RoqoqoError {
    type V = SpecError;

    open spec fn view(&self) -> SpecError {
        match *self {
            RoqoqoError::UnboundParameter { ref name } => SpecError::UnboundParameter {
                name: name@,
            },
            RoqoqoError::ParameterCountMismatch { expected, actual } => {
                SpecError::ParameterCountMismatch {
                    expected: expected as int,
                    actual: actual as int,
                }
            },
            RoqoqoError::MalformedSpec { term } => SpecError::MalformedSpec { term: term as int },
            RoqoqoError::QubitOutOfRange { qubit, number_qubits } => SpecError::QubitOutOfRange {
                qubit: qubit as int,
                number_qubits: number_qubits as int,
            },
            RoqoqoError::MissingMeasurement { ref register } => SpecError::MissingMeasurement {
                register: register@,
            },
            RoqoqoError::EmptySample { ref register } => SpecError::EmptySample {
                register: register@,
            },
            RoqoqoError::ReadoutIndexOutOfRange { ref register, index } => {
                SpecError::ReadoutIndexOutOfRange { register: register@, index: index as int }
            },
            RoqoqoError::NumericOverflow => SpecError::NumericOverflow,
            RoqoqoError::DivisionByZero => SpecError::DivisionByZero,
            RoqoqoError::Backend { ref message } => SpecError::Backend { message: message@ },
        }
    }
}

} // verus!
