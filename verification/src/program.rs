//! Quantum programs and the evaluation driver.
//!
//! A program bundles a Pauli-Z product measurement (declaration plus its
//! measurement circuits and an optional shared constant prefix) with the
//! ordered list of symbolic parameter names it expects.  Evaluating the
//! program binds the parameters positionally, runs every circuit on a
//! caller-supplied backend in declaration order, and aggregates the
//! returned samples.  The program itself is never mutated, so one
//! program can be evaluated many times with different parameters.

use vstd::prelude::*;

use crate::binding::spec_bind_ops;
use crate::circuit::ops_view;
use crate::circuit::Circuit;
use crate::circuit::SpecOp;
use crate::error::RoqoqoError;
use crate::error::SpecError;
use crate::expression::Bindings;
use crate::fixed::Fixed;
use crate::measurement::input_wf;
use crate::measurement::outputs_view;
use crate::measurement::spec_evaluate;
use crate::measurement::PauliZProductInput;
use crate::registers::results_view;
use crate::registers::Registers;
use crate::registers::SpecRegisters;

verus! {

broadcast use vstd::seq::group_seq_axioms, vstd::std_specs::vec::group_vec_axioms;

/// A Pauli-Z product measurement: its declaration, the measurement
/// circuits in execution order, and an optional constant circuit that
/// precedes every measurement circuit.
#[derive(Debug, PartialEq, Eq)]
pub struct PauliZProduct {
    pub input: PauliZProductInput,
    pub circuits: Vec<Circuit>,
    pub constant_circuit: Option<Circuit>,
}

/// View of a circuit list.
pub open spec fn circuits_view(s: Seq<Circuit>) -> Seq<Seq<SpecOp>> {
    Seq::new(s.len(), |i: int| ops_view(s[i].operations@))
}

/// Mathematical mirror of `PauliZProduct`.
pub struct SpecPauliZProduct {
    pub input: crate::measurement::SpecPZInput,
    pub circuits: Seq<Seq<SpecOp>>,
    pub constant_circuit: Option<Seq<SpecOp>>,
}

impl View for PauliZProduct {
    type V = SpecPauliZProduct;

    open spec fn view(&self) -> SpecPauliZProduct {
        SpecPauliZProduct {
            input: self.input@,
            circuits: circuits_view(self.circuits@),
            constant_circuit: match self.constant_circuit {
                Some(ref c) => Some(ops_view(c.operations@)),
                None => None,
            },
        }
    }
}

/// A parameterized bundle of measurement and circuits, evaluable as a
/// function of positional parameter values.
#[derive(Debug, PartialEq, Eq)]
pub struct QuantumProgram {
    pub measurement: PauliZProduct,
    pub input_parameter_names: Vec<Vec<u8>>,
}

/// View of a name list.
pub open spec fn names_view(s: Seq<Vec<u8>>) -> Seq<Seq<u8>> {
    Seq::new(s.len(), |i: int| s[i]@)
}

/// Mathematical mirror of `QuantumProgram`.
pub struct SpecQuantumProgram {
    pub measurement: SpecPauliZProduct,
    pub input_parameter_names: Seq<Seq<u8>>,
}

impl View for QuantumProgram {
    type V = SpecQuantumProgram;

    open spec fn view(&self) -> SpecQuantumProgram {
        SpecQuantumProgram {
            measurement: self.measurement@,
            input_parameter_names: names_view(self.input_parameter_names@),
        }
    }
}

/// The contract every execution backend satisfies: it runs one fully
/// bound circuit and hands back sampled registers, or an opaque error.
/// Sampling is stochastic, so nothing is promised about the returned
/// values; the library states what holds of every outcome.
pub trait EvaluatingBackend {
    /// Runs one circuit and collects its classical registers.
    fn run_circuit(&self, circuit: &Circuit) -> Result<Registers, RoqoqoError>;
}

/// The positional binding of parameter names to values.
pub open spec fn spec_zip_bindings(names: Seq<Seq<u8>>, values: Seq<int>) -> Seq<(Seq<u8>, int)> {
    Seq::new(names.len(), |i: int| (names[i], values[i]))
}

/// View of a value list.
pub open spec fn values_view(s: Seq<Fixed>) -> Seq<int> {
    Seq::new(s.len(), |i: int| s[i].units as int)
}

/// Binding of one measurement circuit: the constant circuit first, then
/// the measurement circuit, failing on the first unresolved name.
pub open spec fn spec_prepare_one(
    constant: Option<Seq<SpecOp>>,
    c: Seq<SpecOp>,
    b: Seq<(Seq<u8>, int)>,
) -> Result<Seq<SpecOp>, SpecError> {
    match constant {
        None => spec_bind_ops(c, b),
        Some(cc) => match spec_bind_ops(cc, b) {
            Err(e) => Err(e),
            Ok(head) => match spec_bind_ops(c, b) {
                Err(e) => Err(e),
                Ok(tail) => Ok(head + tail),
            },
        },
    }
}

/// Binding of all measurement circuits in execution order, stopping at
/// the first failure.
pub open spec fn spec_prepare_list(
    constant: Option<Seq<SpecOp>>,
    circuits: Seq<Seq<SpecOp>>,
    b: Seq<(Seq<u8>, int)>,
) -> Result<Seq<Seq<SpecOp>>, SpecError>
    decreases circuits.len(),
{
    if circuits.len() == 0 {
        Ok(Seq::empty())
    } else {
        match spec_prepare_one(constant, circuits[0], b) {
            Err(e) => Err(e),
            Ok(c) => match spec_prepare_list(constant, circuits.drop_first(), b) {
                Err(e) => Err(e),
                Ok(rest) => Ok(Seq::empty().push(c) + rest),
            },
        }
    }
}

/// One unfolding step of `spec_prepare_list` at an arbitrary offset.
pub proof fn lemma_prepare_list_step(
    constant: Option<Seq<SpecOp>>,
    circuits: Seq<Seq<SpecOp>>,
    b: Seq<(Seq<u8>, int)>,
    i: int,
)
    requires
        0 <= i < circuits.len(),
    ensures
        spec_prepare_list(constant, circuits.skip(i), b) == match spec_prepare_one(
            constant,
            circuits[i],
            b,
        ) {
            Err(e) => Err::<Seq<Seq<SpecOp>>, SpecError>(e),
            Ok(c) => match spec_prepare_list(constant, circuits.skip(i + 1), b) {
                Err(e) => Err::<Seq<Seq<SpecOp>>, SpecError>(e),
                Ok(rest) => Ok::<Seq<Seq<SpecOp>>, SpecError>(Seq::empty().push(c) + rest),
            },
        },
{
    assert(circuits.skip(i)[0] == circuits[i]);
    assert(circuits.skip(i).drop_first() =~= circuits.skip(i + 1));
}

/// A successful preparation yields one bound circuit per measurement
/// circuit.
pub proof fn lemma_prepare_list_len(
    constant: Option<Seq<SpecOp>>,
    circuits: Seq<Seq<SpecOp>>,
    b: Seq<(Seq<u8>, int)>,
)
    ensures
        match spec_prepare_list(constant, circuits, b) {
            Ok(cs) => cs.len() == circuits.len(),
            Err(_) => true,
        },
    decreases circuits.len(),
{
    if circuits.len() > 0 {
        lemma_prepare_list_len(constant, circuits.drop_first(), b);
    }
}

impl QuantumProgram {
    /// Zips the program's parameter names against positional values.
    fn build_bindings(&self, values: &Vec<Fixed>) -> (r: Bindings)
        requires
            values@.len() == self.input_parameter_names@.len(),
        ensures
            r@ =~= spec_zip_bindings(self@.input_parameter_names, values_view(values@)),
    {
        let mut b = Bindings::new();
        let mut i: usize = 0;
        while i < self.input_parameter_names.len()
            invariant
                i <= self.input_parameter_names.len(),
                values@.len() == self.input_parameter_names@.len(),
                b@ =~= spec_zip_bindings(
                    names_view(self.input_parameter_names@),
                    values_view(values@),
                ).take(i as int),
            decreases self.input_parameter_names.len() - i,
        {
            b.push(crate::bytes::clone_bytes(&self.input_parameter_names[i]), values[i]);
            i = i + 1;
        }
        proof {
            assert(b@ =~= spec_zip_bindings(
                names_view(self.input_parameter_names@),
                values_view(values@),
            ));
        }
        b
    }

    /// Binds every measurement circuit (each preceded by the constant
    /// circuit, when one is declared) against the positional parameter
    /// values.  Fails exactly when the value count differs from the
    /// declared parameter count, or on the first unresolved name in
    /// execution order.  The program is not changed.
    pub fn prepare_circuits(&self, values: &Vec<Fixed>) -> (r: Result<Vec<Circuit>, RoqoqoError>)
        ensures
            ({
                let b = spec_zip_bindings(self@.input_parameter_names, values_view(values@));
                let m = self@.measurement;
                match r {
                    Ok(cs) => values@.len() == self@.input_parameter_names.len()
                        && spec_prepare_list(m.constant_circuit, m.circuits, b) == Ok::<
                        Seq<Seq<SpecOp>>,
                        SpecError,
                    >(circuits_view(cs@)),
                    Err(e) => (values@.len() != self@.input_parameter_names.len() && e
                        == (RoqoqoError::ParameterCountMismatch {
                        expected: self@.input_parameter_names.len() as usize,
                        actual: values@.len() as usize,
                    })) || (values@.len() == self@.input_parameter_names.len()
                        && spec_prepare_list(m.constant_circuit, m.circuits, b) == Err::<
                        Seq<Seq<SpecOp>>,
                        SpecError,
                    >(e@)),
                }
            }),
    {
        if values.len() != self.input_parameter_names.len() {
            return Err(
                RoqoqoError::ParameterCountMismatch {
                    expected: self.input_parameter_names.len(),
                    actual: values.len(),
                },
            );
        }
        let b = self.build_bindings(values);
        let ghost bv = spec_zip_bindings(self@.input_parameter_names, values_view(values@));
        let ghost constant = self@.measurement.constant_circuit;
        let ghost cv = circuits_view(self.measurement.circuits@);
        let mut out: Vec<Circuit> = Vec::new();
        let mut i: usize = 0;
        proof {
            assert(cv.skip(0) =~= cv);
            assert(circuits_view(out@) =~= Seq::<Seq<SpecOp>>::empty());
        }
        while i < self.measurement.circuits.len()
            invariant
                i <= self.measurement.circuits.len(),
                values@.len() == self@.input_parameter_names.len(),
                bv == spec_zip_bindings(self@.input_parameter_names, values_view(values@)),
                b@ == bv,
                cv == circuits_view(self.measurement.circuits@),
                cv.len() == self.measurement.circuits@.len(),
                constant == self@.measurement.constant_circuit,
                circuits_view(out@).len() == out@.len(),
                match spec_prepare_list(constant, cv.skip(i as int), bv) {
                    Ok(rest) => spec_prepare_list(constant, cv, bv) == Ok::<
                        Seq<Seq<SpecOp>>,
                        SpecError,
                    >(circuits_view(out@) + rest),
                    Err(e) => spec_prepare_list(constant, cv, bv) == Err::<
                        Seq<Seq<SpecOp>>,
                        SpecError,
                    >(e),
                },
            decreases self.measurement.circuits.len() - i,
        {
            proof {
                lemma_prepare_list_step(constant, cv, bv, i as int);
                assert(cv[i as int] == ops_view(self.measurement.circuits@[i as int].operations@));
            }
            let head: Result<Circuit, RoqoqoError> = match &self.measurement.constant_circuit {
                Some(cc) => {
                    proof {
                        assert(constant == Some(ops_view(cc.operations@)));
                    }
                    cc.substitute_parameters(&b)
                },
                None => Ok(Circuit::new()),
            };
            proof {
                match head {
                    Ok(ref head_circuit) => {
                        match constant {
                            Some(ccv) => {
                                assert(spec_bind_ops(ccv, bv) == Ok::<Seq<SpecOp>, SpecError>(
                                    head_circuit@,
                                ));
                            },
                            None => {
                                assert(head_circuit@ =~= Seq::<SpecOp>::empty());
                            },
                        }
                    },
                    Err(ref e) => {
                        assert(spec_prepare_one(constant, cv[i as int], bv) == Err::<
                            Seq<SpecOp>,
                            SpecError,
                        >(e@));
                    },
                }
            }
            let bound: Circuit = match head {
                Ok(head_circuit) => {
                    match self.measurement.circuits[i].substitute_parameters(&b) {
                        Ok(tail_circuit) => head_circuit.concat(tail_circuit),
                        Err(e) => {
                            proof {
                                assert(spec_prepare_one(constant, cv[i as int], bv) == Err::<
                                    Seq<SpecOp>,
                                    SpecError,
                                >(e@));
                            }
                            return Err(e);
                        },
                    }
                },
                Err(e) => {
                    return Err(e);
                },
            };
            proof {
                match spec_prepare_one(constant, cv[i as int], bv) {
                    Ok(c) => {
                        assert(bound@ == c);
                    },
                    Err(_) => {
                        assert(false);
                    },
                }
            }
            let ghost out_before = circuits_view(out@);
            out.push(bound);
            proof {
                assert(circuits_view(out@) =~= out_before.push(bound@));
                match spec_prepare_list(constant, cv.skip(i + 1), bv) {
                    Ok(rest) => {
                        assert(out_before + (Seq::empty().push(bound@) + rest) =~= circuits_view(
                            out@,
                        ) + rest);
                    },
                    Err(_) => {},
                }
            }
            i = i + 1;
        }
        proof {
            assert(cv.skip(i as int).len() == 0);
            assert(circuits_view(out@) + Seq::<Seq<SpecOp>>::empty() =~= circuits_view(out@));
        }
        Ok(out)
    }

    /// Evaluates the program: binds the parameters positionally, runs
    /// every circuit on the backend in declaration order, and aggregates
    /// all returned registers into the named linear-combination values.
    /// A wrong value count and every binding failure are reported
    /// exactly, with the exact error; what the backend returns is
    /// outside the library's control, so for a successful run the
    /// contract says that the result is the exact aggregation of some
    /// sequence of backend results, one per circuit.  With no circuits
    /// at all the backend is never consulted and the result is pinned
    /// completely: the exact aggregation over no results.
    pub fn run<B: EvaluatingBackend>(&self, backend: &B, values: &Vec<Fixed>) -> (r: Result<
        Vec<(Vec<u8>, Fixed)>,
        RoqoqoError,
    >)
        requires
            input_wf(self@.measurement.input),
        ensures
            ({
                let b = spec_zip_bindings(self@.input_parameter_names, values_view(values@));
                let m = self@.measurement;
                &&& (values@.len() != self@.input_parameter_names.len() ==> r == Err::<
                    Vec<(Vec<u8>, Fixed)>,
                    RoqoqoError,
                >(
                    RoqoqoError::ParameterCountMismatch {
                        expected: self.input_parameter_names.len(),
                        actual: values.len(),
                    },
                ))
                &&& (match r {
                    Ok(out) => exists|results: Seq<SpecRegisters>|
                        #![auto]
                        results.len() == m.circuits.len() && spec_evaluate(m.input, results)
                            == Ok::<Seq<(Seq<u8>, int)>, SpecError>(outputs_view(out@)),
                    Err(_) => true,
                })
                &&& (match spec_prepare_list(m.constant_circuit, m.circuits, b) {
                    Err(se) => values@.len() == self@.input_parameter_names.len() ==> (match r {
                        Err(e) => e@ == se,
                        Ok(_) => false,
                    }),
                    Ok(_) => true,
                })
                &&& (values@.len() == self@.input_parameter_names.len() && m.circuits.len() == 0
                    ==> (match r {
                    Ok(out) => spec_evaluate(m.input, Seq::empty()) == Ok::<
                        Seq<(Seq<u8>, int)>,
                        SpecError,
                    >(outputs_view(out@)),
                    Err(e) => spec_evaluate(m.input, Seq::empty()) == Err::<
                        Seq<(Seq<u8>, int)>,
                        SpecError,
                    >(e@),
                }))
            }),
    {
        let bound = match self.prepare_circuits(values) {
            Ok(cs) => cs,
            Err(e) => {
                return Err(e);
            },
        };
        proof {
            assert(circuits_view(bound@).len() == bound@.len());
            assert(circuits_view(self.measurement.circuits@).len()
                == self.measurement.circuits@.len());
            lemma_prepare_list_len(
                self@.measurement.constant_circuit,
                self@.measurement.circuits,
                spec_zip_bindings(self@.input_parameter_names, values_view(values@)),
            );
        }
        let mut results: Vec<Registers> = Vec::new();
        let mut i: usize = 0;
        while i < bound.len()
            invariant
                i <= bound.len(),
                results@.len() == i,
                values@.len() == self@.input_parameter_names.len(),
                bound@.len() == self@.measurement.circuits.len(),
                spec_prepare_list(
                    self@.measurement.constant_circuit,
                    self@.measurement.circuits,
                    spec_zip_bindings(self@.input_parameter_names, values_view(values@)),
                ) == Ok::<Seq<Seq<SpecOp>>, SpecError>(circuits_view(bound@)),
            decreases bound.len() - i,
        {
            match backend.run_circuit(&bound[i]) {
                Ok(regs) => {
                    results.push(regs);
                },
                Err(e) => {
                    return Err(e);
                },
            }
            i = i + 1;
        }
        proof {
            if self@.measurement.circuits.len() == 0 {
                assert(results_view(results@) =~= Seq::<SpecRegisters>::empty());
            }
        }
        match self.measurement.input.evaluate(&results) {
            Ok(out) => {
                proof {
                    let rv = results_view(results@);
                    assert(rv.len() == self@.measurement.circuits.len());
                }
                Ok(out)
            },
            Err(e) => Err(e),
        }
    }
}

} // verus!
