//! Quantum operations and circuits.
//!
//! A circuit is an ordered, append-only sequence of operations.  Every
//! operation is one member of a closed catalogue: unitary gates, classical
//! register definitions, measurements, and compiler pragmas.  The
//! mathematical view of a circuit is the sequence of views of its
//! operations, so composition contracts are stated over plain sequences.

use vstd::prelude::*;

use crate::expression::expr_view;
use crate::expression::CalcExpr;
use crate::expression::SpecExpr;
use crate::fixed::Fixed;

verus! {

broadcast use vstd::seq::group_seq_axioms, vstd::std_specs::vec::group_vec_axioms;

/// A complex amplitude with exact scaled-integer parts.
#[derive(Clone, Copy, Debug, PartialEq, Eq, Structural)]
pub struct Complexf {
    pub re: Fixed,
    pub im: Fixed,
}

/// One primitive instruction of a circuit.
#[derive(Debug, PartialEq, Eq)]
pub enum Operation {
    /// Hadamard gate on one qubit.
    Hadamard { qubit: usize },
    /// Pauli X gate on one qubit.
    PauliX { qubit: usize },
    /// Pauli Y gate on one qubit.
    PauliY { qubit: usize },
    /// Pauli Z gate on one qubit.
    PauliZ { qubit: usize },
    /// Phase gate S on one qubit.
    SGate { qubit: usize },
    /// Controlled NOT with a control and a target qubit.
    CNOT { control: usize, target: usize },
    /// Rotation about the X axis by a literal or symbolic angle.
    RotateX { qubit: usize, theta: CalcExpr },
    /// Rotation about the Y axis by a literal or symbolic angle.
    RotateY { qubit: usize, theta: CalcExpr },
    /// Rotation about the Z axis by a literal or symbolic angle.
    RotateZ { qubit: usize, theta: CalcExpr },
    /// Declares a classical bit register.
    DefinitionBit { name: Vec<u8>, length: usize, is_output: bool },
    /// Declares a classical real-number register.
    DefinitionFloat { name: Vec<u8>, length: usize, is_output: bool },
    /// Declares a classical complex-number register.
    DefinitionComplex { name: Vec<u8>, length: usize, is_output: bool },
    /// Projective measurement of one qubit into a bit register slot.
    MeasureQubit { qubit: usize, readout: Vec<u8>, readout_index: usize },
    /// Pragma: run the whole circuit repeatedly, measuring all qubits
    /// into a register, with an optional qubit-to-slot mapping.
    PragmaRepeatedMeasurement {
        readout: Vec<u8>,
        number_measurements: usize,
        qubit_mapping: Option<Vec<(usize, usize)>>,
    },
    /// Pragma: set the number of repetitions for a measured register.
    PragmaSetNumberOfMeasurements { number_measurements: usize, readout: Vec<u8> },
    /// Pragma: inject a full state vector (simulation only).
    PragmaSetStateVector { statevector: Vec<Complexf> },
    /// Pragma: write the current state vector to a complex register,
    /// optionally after a measurement sub-circuit (simulation only).
    PragmaGetStateVector { readout: Vec<u8>, circuit: Option<Circuit> },
    /// Pragma: run a guarded sub-circuit when a measured bit is set.
    PragmaConditional { condition_register: Vec<u8>, condition_index: usize, circuit: Circuit },
}

/// An ordered, append-only sequence of operations.
#[derive(Debug, PartialEq, Eq)]
pub struct Circuit {
    pub operations: Vec<Operation>,
}

/// The kind tag of an operation.
#[derive(Clone, Copy, Debug, PartialEq, Eq, Structural)]
pub enum OpKind {
    Hadamard,
    PauliX,
    PauliY,
    PauliZ,
    SGate,
    CNOT,
    RotateX,
    RotateY,
    RotateZ,
    DefinitionBit,
    DefinitionFloat,
    DefinitionComplex,
    MeasureQubit,
    PragmaRepeatedMeasurement,
    PragmaSetNumberOfMeasurements,
    PragmaSetStateVector,
    PragmaGetStateVector,
    PragmaConditional,
}

/// Mathematical mirror of `Operation`; sub-circuits become sequences.
pub enum SpecOp {
    Hadamard { qubit: int },
    PauliX { qubit: int },
    PauliY { qubit: int },
    PauliZ { qubit: int },
    SGate { qubit: int },
    CNOT { control: int, target: int },
    RotateX { qubit: int, theta: SpecExpr },
    RotateY { qubit: int, theta: SpecExpr },
    RotateZ { qubit: int, theta: SpecExpr },
    DefinitionBit { name: Seq<u8>, length: int, is_output: bool },
    DefinitionFloat { name: Seq<u8>, length: int, is_output: bool },
    DefinitionComplex { name: Seq<u8>, length: int, is_output: bool },
    MeasureQubit { qubit: int, readout: Seq<u8>, readout_index: int },
    PragmaRepeatedMeasurement {
        readout: Seq<u8>,
        number_measurements: int,
        qubit_mapping: Option<Seq<(int, int)>>,
    },
    PragmaSetNumberOfMeasurements { number_measurements: int, readout: Seq<u8> },
    PragmaSetStateVector { statevector: Seq<(int, int)> },
    PragmaGetStateVector { readout: Seq<u8>, circuit: Option<Seq<SpecOp>> },
    PragmaConditional { condition_register: Seq<u8>, condition_index: int, circuit: Seq<SpecOp> },
}

/// View of an index-pair list.
pub open spec fn pairs_view(v: Seq<(usize, usize)>) -> Seq<(int, int)> {
    Seq::new(v.len(), |i: int| (v[i].0 as int, v[i].1 as int))
}

/// View of an amplitude list.
pub open spec fn amplitudes_view(v: Seq<Complexf>) -> Seq<(int, int)> {
    Seq::new(v.len(), |i: int| (v[i].re.units as int, v[i].im.units as int))
}

/// Mathematical view of one operation.
pub open spec fn op_view(op: Operation) -> SpecOp
    decreases op,
{
    match op {
        Operation::Hadamard { qubit } => SpecOp::Hadamard { qubit: qubit as int },
        Operation::PauliX { qubit } => SpecOp::PauliX { qubit: qubit as int },
        Operation::PauliY { qubit } => SpecOp::PauliY { qubit: qubit as int },
        Operation::PauliZ { qubit } => SpecOp::PauliZ { qubit: qubit as int },
        Operation::SGate { qubit } => SpecOp::SGate { qubit: qubit as int },
        Operation::CNOT { control, target } => SpecOp::CNOT {
            control: control as int,
            target: target as int,
        },
        Operation::RotateX { qubit, theta } => SpecOp::RotateX {
            qubit: qubit as int,
            theta: expr_view(theta),
        },
        Operation::RotateY { qubit, theta } => SpecOp::RotateY {
            qubit: qubit as int,
            theta: expr_view(theta),
        },
        Operation::RotateZ { qubit, theta } => SpecOp::RotateZ {
            qubit: qubit as int,
            theta: expr_view(theta),
        },
        Operation::DefinitionBit { name, length, is_output } => SpecOp::DefinitionBit {
            name: name@,
            length: length as int,
            is_output,
        },
        Operation::DefinitionFloat { name, length, is_output } => SpecOp::DefinitionFloat {
            name: name@,
            length: length as int,
            is_output,
        },
        Operation::DefinitionComplex { name, length, is_output } => SpecOp::DefinitionComplex {
            name: name@,
            length: length as int,
            is_output,
        },
        Operation::MeasureQubit { qubit, readout, readout_index } => SpecOp::MeasureQubit {
            qubit: qubit as int,
            readout: readout@,
            readout_index: readout_index as int,
        },
        Operation::PragmaRepeatedMeasurement { readout, number_measurements, qubit_mapping } => {
            SpecOp::PragmaRepeatedMeasurement {
                readout: readout@,
                number_measurements: number_measurements as int,
                qubit_mapping: match qubit_mapping {
                    Some(m) => Some(pairs_view(m@)),
                    None => None,
                },
            }
        },
        Operation::PragmaSetNumberOfMeasurements { number_measurements, readout } => {
            SpecOp::PragmaSetNumberOfMeasurements {
                number_measurements: number_measurements as int,
                readout: readout@,
            }
        },
        Operation::PragmaSetStateVector { statevector } => SpecOp::PragmaSetStateVector {
            statevector: amplitudes_view(statevector@),
        },
        Operation::PragmaGetStateVector { readout, circuit } => SpecOp::PragmaGetStateVector {
            readout: readout@,
            circuit: match circuit {
                Some(c) => Some(ops_view(c.operations@)),
                None => None,
            },
        },
        Operation::PragmaConditional { condition_register, condition_index, circuit } => {
            SpecOp::PragmaConditional {
                condition_register: condition_register@,
                condition_index: condition_index as int,
                circuit: ops_view(circuit.operations@),
            }
        },
    }
}

/// Mathematical view of a sequence of operations.
pub open spec fn ops_view(s: Seq<Operation>) -> Seq<SpecOp>
    decreases s,
{
    if s.len() == 0 {
        Seq::empty()
    } else {
        ops_view(s.drop_last()).push(op_view(s[s.len() - 1]))
    }
}

impl View for Operation {
    type V = SpecOp;

    open spec fn view(&self) -> SpecOp {
        op_view(*self)
    }
}

impl View for Circuit {
    type V = Seq<SpecOp>;

    open spec fn view(&self) -> Seq<SpecOp> {
        ops_view(self.operations@)
    }
}

/// The view of an operation sequence is its pointwise view.
pub proof fn lemma_ops_view(s: Seq<Operation>)
    ensures
        ops_view(s).len() == s.len(),
        forall|i: int| 0 <= i < s.len() ==> ops_view(s)[i] == op_view(s[i]),
    decreases s.len(),
{
    if s.len() > 0 {
        lemma_ops_view(s.drop_last());
    }
}

/// Sequence views distribute over concatenation.
pub proof fn lemma_ops_view_concat(a: Seq<Operation>, b: Seq<Operation>)
    ensures
        ops_view(a + b) =~= ops_view(a) + ops_view(b),
{
    lemma_ops_view(a);
    lemma_ops_view(b);
    lemma_ops_view(a + b);
}

/// Structural composition of circuits is associative: composing `a`
/// with `b` and then `c` yields the same operation sequence as composing
/// `a` with the composition of `b` and `c`.
pub proof fn lemma_concat_associative(a: Seq<SpecOp>, b: Seq<SpecOp>, c: Seq<SpecOp>)
    ensures
        (a + b) + c == a + (b + c),
{
    assert((a + b) + c =~= a + (b + c));
}

/// The empty circuit is the identity of structural composition.
pub proof fn lemma_concat_identity(a: Seq<SpecOp>)
    ensures
        a + Seq::<SpecOp>::empty() == a,
        Seq::<SpecOp>::empty() + a == a,
{
    assert(a + Seq::<SpecOp>::empty() =~= a);
    assert(Seq::<SpecOp>::empty() + a =~= a);
}

/// The kind tag of an operation's view.
pub open spec fn spec_kind(op: SpecOp) -> OpKind {
    match op {
        SpecOp::Hadamard { .. } => OpKind::Hadamard,
        SpecOp::PauliX { .. } => OpKind::PauliX,
        SpecOp::PauliY { .. } => OpKind::PauliY,
        SpecOp::PauliZ { .. } => OpKind::PauliZ,
        SpecOp::SGate { .. } => OpKind::SGate,
        SpecOp::CNOT { .. } => OpKind::CNOT,
        SpecOp::RotateX { .. } => OpKind::RotateX,
        SpecOp::RotateY { .. } => OpKind::RotateY,
        SpecOp::RotateZ { .. } => OpKind::RotateZ,
        SpecOp::DefinitionBit { .. } => OpKind::DefinitionBit,
        SpecOp::DefinitionFloat { .. } => OpKind::DefinitionFloat,
        SpecOp::DefinitionComplex { .. } => OpKind::DefinitionComplex,
        SpecOp::MeasureQubit { .. } => OpKind::MeasureQubit,
        SpecOp::PragmaRepeatedMeasurement { .. } => OpKind::PragmaRepeatedMeasurement,
        SpecOp::PragmaSetNumberOfMeasurements { .. } => OpKind::PragmaSetNumberOfMeasurements,
        SpecOp::PragmaSetStateVector { .. } => OpKind::PragmaSetStateVector,
        SpecOp::PragmaGetStateVector { .. } => OpKind::PragmaGetStateVector,
        SpecOp::PragmaConditional { .. } => OpKind::PragmaConditional,
    }
}

impl Operation {
    /// The kind tag of this operation.
    pub fn kind(&self) -> (r: OpKind)
        ensures
            r == spec_kind(self@),
    {
        match self {
            Operation::Hadamard { .. } => OpKind::Hadamard,
            Operation::PauliX { .. } => OpKind::PauliX,
            Operation::PauliY { .. } => OpKind::PauliY,
            Operation::PauliZ { .. } => OpKind::PauliZ,
            Operation::SGate { .. } => OpKind::SGate,
            Operation::CNOT { .. } => OpKind::CNOT,
            Operation::RotateX { .. } => OpKind::RotateX,
            Operation::RotateY { .. } => OpKind::RotateY,
            Operation::RotateZ { .. } => OpKind::RotateZ,
            Operation::DefinitionBit { .. } => OpKind::DefinitionBit,
            Operation::DefinitionFloat { .. } => OpKind::DefinitionFloat,
            Operation::DefinitionComplex { .. } => OpKind::DefinitionComplex,
            Operation::MeasureQubit { .. } => OpKind::MeasureQubit,
            Operation::PragmaRepeatedMeasurement { .. } => OpKind::PragmaRepeatedMeasurement,
            Operation::PragmaSetNumberOfMeasurements { .. } => {
                OpKind::PragmaSetNumberOfMeasurements
            },
            Operation::PragmaSetStateVector { .. } => OpKind::PragmaSetStateVector,
            Operation::PragmaGetStateVector { .. } => OpKind::PragmaGetStateVector,
            Operation::PragmaConditional { .. } => OpKind::PragmaConditional,
        }
    }
}

impl Circuit {
    /// The empty circuit.
    pub fn new() -> (r: Circuit)
        ensures
            r@ == Seq::<SpecOp>::empty(),
    {
        Circuit { operations: Vec::new() }
    }

    /// Number of operations.
    pub fn len(&self) -> (r: usize)
        ensures
            r == self@.len(),
    {
        proof {
            lemma_ops_view(self.operations@);
        }
        self.operations.len()
    }

    /// Appends one operation at the end; nothing else moves.
    pub fn add_operation(&mut self, op: Operation)
        ensures
            final(self)@ =~= old(self)@.push(op@),
    {
        self.operations.push(op);
        proof {
            lemma_ops_view(old(self).operations@);
            lemma_ops_view(self.operations@);
            assert(self.operations@.drop_last() =~= old(self).operations@);
        }
    }

    /// Structural composition: the operations of `self` followed by the
    /// operations of `other`.
    pub fn concat(self, other: Circuit) -> (r: Circuit)
        ensures
            r@ == self@ + other@,
    {
        let ghost a = self.operations@;
        let ghost b = other.operations@;
        let mut ops = self.operations;
        let mut tail = other.operations;
        ops.append(&mut tail);
        proof {
            lemma_ops_view_concat(a, b);
        }
        Circuit { operations: ops }
    }

    /// The distinct kind tags present, each exactly once, in first-seen
    /// order.
    pub fn get_operation_types(&self) -> (r: Vec<OpKind>)
        ensures
            forall|a: int, b: int| 0 <= a < b < r@.len() ==> r@[a] != r@[b],
            forall|t: OpKind|
                r@.contains(t) <==> exists|j: int|
                    0 <= j < self@.len() && spec_kind(#[trigger] self@[j]) == t,
    {
        proof {
            lemma_ops_view(self.operations@);
        }
        let mut r: Vec<OpKind> = Vec::new();
        let mut i: usize = 0;
        while i < self.operations.len()
            invariant
                i <= self.operations.len(),
                self@.len() == self.operations@.len(),
                forall|j: int| 0 <= j < self@.len() ==> self@[j] == op_view(self.operations@[j]),
                forall|a: int, b: int| 0 <= a < b < r@.len() ==> r@[a] != r@[b],
                forall|t: OpKind|
                    r@.contains(t) ==> exists|j: int|
                        0 <= j < i && spec_kind(#[trigger] self@[j]) == t,
                forall|j: int| 0 <= j < i ==> r@.contains(spec_kind(#[trigger] self@[j])),
            decreases self.operations.len() - i,
        {
            let k = self.operations[i].kind();
            let ghost r_old = r@;
            let mut seen = false;
            let mut m: usize = 0;
            while m < r.len()
                invariant
                    m <= r.len(),
                    seen <==> exists|n: int| 0 <= n < m && r@[n] == k,
                decreases r.len() - m,
            {
                if r[m] == k {
                    seen = true;
                }
                m = m + 1;
            }
            if !seen {
                r.push(k);
            }
            proof {
                if seen {
                    let n = choose|n: int| 0 <= n < r_old.len() && r_old[n] == k;
                    assert(r@[n] == k);
                } else {
                    assert(r@ =~= r_old.push(k));
                    assert(r@[r_old.len() as int] == k);
                    assert forall|a: int, b: int| 0 <= a < b < r@.len() implies r@[a]
                        != r@[b] by {
                        if b < r_old.len() {
                            assert(r@[a] == r_old[a] && r@[b] == r_old[b]);
                        } else {
                            assert(r@[a] == r_old[a] && r@[b] == k);
                        }
                    }
                }
                assert(r@.contains(k));
                assert forall|t: OpKind| r@.contains(t) implies exists|j: int|
                    0 <= j < i + 1 && spec_kind(#[trigger] self@[j]) == t by {
                    if t == k {
                        assert(spec_kind(self@[i as int]) == t);
                    } else {
                        let n = choose|n: int| 0 <= n < r@.len() && r@[n] == t;
                        assert(r_old[n] == t);
                        assert(r_old.contains(t));
                    }
                }
                assert forall|j: int| 0 <= j < i + 1 implies r@.contains(
                    spec_kind(#[trigger] self@[j]),
                ) by {
                    if j < i {
                        let t = spec_kind(self@[j]);
                        assert(r_old.contains(t));
                        let n = choose|n: int| 0 <= n < r_old.len() && r_old[n] == t;
                        assert(r@[n] == t);
                    }
                }
            }
            i = i + 1;
        }
        r
    }
}

} // verus!
