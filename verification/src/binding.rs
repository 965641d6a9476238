//! Symbolic-parameter substitution.
//!
//! Binding a circuit against a named assignment replaces every symbolic
//! angle by its numeric evaluation and leaves every other operation
//! unchanged.  Substitution never mutates its input, and it fails on the
//! first unresolved name in operation order.

use vstd::prelude::*;

use crate::bytes::clone_bytes;
use crate::circuit::op_view;
use crate::circuit::ops_view;
use crate::circuit::Circuit;
use crate::circuit::Complexf;
use crate::circuit::Operation;
use crate::circuit::SpecOp;
use crate::circuit::lemma_ops_view;
use crate::error::RoqoqoError;
use crate::error::SpecError;
use crate::expression::eval;
use crate::expression::expr_names;
use crate::expression::lookup_binding;
use crate::expression::spec_eval;
use crate::expression::Bindings;
use crate::expression::CalcExpr;
use crate::expression::SpecExpr;

verus! {

broadcast use vstd::seq::group_seq_axioms, vstd::std_specs::vec::group_vec_axioms;

/// The symbolic parameter names one operation mentions.
pub open spec fn op_param_names(op: SpecOp) -> Set<Seq<u8>>
    decreases op,
{
    match op {
        SpecOp::RotateX { theta, .. } => expr_names(theta),
        SpecOp::RotateY { theta, .. } => expr_names(theta),
        SpecOp::RotateZ { theta, .. } => expr_names(theta),
        SpecOp::PragmaGetStateVector { circuit, .. } => match circuit {
            Some(c) => ops_param_names(c),
            None => Set::empty(),
        },
        SpecOp::PragmaConditional { circuit, .. } => ops_param_names(circuit),
        _ => Set::empty(),
    }
}

/// The union of the symbolic parameter names of a sequence of
/// operations.
pub open spec fn ops_param_names(s: Seq<SpecOp>) -> Set<Seq<u8>>
    decreases s,
{
    if s.len() == 0 {
        Set::empty()
    } else {
        op_param_names(s[0]).union(ops_param_names(s.drop_first()))
    }
}

/// Substitution on one operation: symbolic angles become literals,
/// guarded sub-circuits are substituted recursively, everything else is
/// returned unchanged.
pub open spec fn spec_bind_op(op: SpecOp, b: Seq<(Seq<u8>, int)>) -> Result<SpecOp, SpecError>
    decreases op,
{
    match op {
        SpecOp::RotateX { qubit, theta } => match spec_eval(theta, b) {
            Ok(v) => Ok(SpecOp::RotateX { qubit, theta: SpecExpr::Literal { value: v } }),
            Err(e) => Err(e),
        },
        SpecOp::RotateY { qubit, theta } => match spec_eval(theta, b) {
            Ok(v) => Ok(SpecOp::RotateY { qubit, theta: SpecExpr::Literal { value: v } }),
            Err(e) => Err(e),
        },
        SpecOp::RotateZ { qubit, theta } => match spec_eval(theta, b) {
            Ok(v) => Ok(SpecOp::RotateZ { qubit, theta: SpecExpr::Literal { value: v } }),
            Err(e) => Err(e),
        },
        SpecOp::PragmaGetStateVector { readout, circuit } => match circuit {
            Some(c) => match spec_bind_ops(c, b) {
                Ok(c2) => Ok(SpecOp::PragmaGetStateVector { readout, circuit: Some(c2) }),
                Err(e) => Err(e),
            },
            None => Ok(SpecOp::PragmaGetStateVector { readout, circuit: None }),
        },
        SpecOp::PragmaConditional { condition_register, condition_index, circuit } => {
            match spec_bind_ops(circuit, b) {
                Ok(c2) => Ok(
                    SpecOp::PragmaConditional { condition_register, condition_index, circuit: c2 },
                ),
                Err(e) => Err(e),
            }
        },
        _ => Ok(op),
    }
}

/// Substitution on a sequence of operations, stopping at the first
/// failure in operation order.
pub open spec fn spec_bind_ops(s: Seq<SpecOp>, b: Seq<(Seq<u8>, int)>) -> Result<
    Seq<SpecOp>,
    SpecError,
>
    decreases s,
{
    if s.len() == 0 {
        Ok(Seq::empty())
    } else {
        match spec_bind_op(s[0], b) {
            Err(e) => Err(e),
            Ok(o) => match spec_bind_ops(s.drop_first(), b) {
                Err(e) => Err(e),
                Ok(rest) => Ok(Seq::empty().push(o) + rest),
            },
        }
    }
}

/// One unfolding step of `spec_bind_ops` at an arbitrary offset.
pub proof fn lemma_bind_ops_step(s: Seq<SpecOp>, b: Seq<(Seq<u8>, int)>, i: int)
    requires
        0 <= i < s.len(),
    ensures
        spec_bind_ops(s.skip(i), b) == match spec_bind_op(s[i], b) {
            Err(e) => Err::<Seq<SpecOp>, SpecError>(e),
            Ok(o) => match spec_bind_ops(s.skip(i + 1), b) {
                Err(e) => Err::<Seq<SpecOp>, SpecError>(e),
                Ok(rest) => Ok::<Seq<SpecOp>, SpecError>(Seq::empty().push(o) + rest),
            },
        },
{
    assert(s.skip(i)[0] == s[i]);
    assert(s.skip(i).drop_first() =~= s.skip(i + 1));
}

/// A fresh copy of an index-pair list.
fn clone_pairs(v: &Vec<(usize, usize)>) -> (r: Vec<(usize, usize)>)
    ensures
        r@ =~= v@,
{
    let mut r: Vec<(usize, usize)> = Vec::new();
    let mut i: usize = 0;
    while i < v.len()
        invariant
            i <= v.len(),
            r@ =~= v@.take(i as int),
        decreases v.len() - i,
    {
        r.push(v[i]);
        i = i + 1;
    }
    r
}

/// A fresh copy of an amplitude list.
fn clone_amplitudes(v: &Vec<Complexf>) -> (r: Vec<Complexf>)
    ensures
        r@ =~= v@,
{
    let mut r: Vec<Complexf> = Vec::new();
    let mut i: usize = 0;
    while i < v.len()
        invariant
            i <= v.len(),
            r@ =~= v@.take(i as int),
        decreases v.len() - i,
    {
        r.push(v[i]);
        i = i + 1;
    }
    r
}

/// Substitutes one operation under a binding.
fn bind_op(op: &Operation, b: &Bindings) -> (r: Result<Operation, RoqoqoError>)
    ensures
        match r {
            Ok(o) => spec_bind_op(op@, b@) == Ok::<SpecOp, SpecError>(o@),
            Err(e) => spec_bind_op(op@, b@) == Err::<SpecOp, SpecError>(e@),
        },
    decreases *op,
{
    match op {
        Operation::Hadamard { qubit } => Ok(Operation::Hadamard { qubit: *qubit }),
        Operation::PauliX { qubit } => Ok(Operation::PauliX { qubit: *qubit }),
        Operation::PauliY { qubit } => Ok(Operation::PauliY { qubit: *qubit }),
        Operation::PauliZ { qubit } => Ok(Operation::PauliZ { qubit: *qubit }),
        Operation::SGate { qubit } => Ok(Operation::SGate { qubit: *qubit }),
        Operation::CNOT { control, target } => Ok(
            Operation::CNOT { control: *control, target: *target },
        ),
        Operation::RotateX { qubit, theta } => match eval(theta, b) {
            Ok(v) => Ok(
                Operation::RotateX { qubit: *qubit, theta: CalcExpr::Literal { value: v } },
            ),
            Err(e) => Err(e),
        },
        Operation::RotateY { qubit, theta } => match eval(theta, b) {
            Ok(v) => Ok(
                Operation::RotateY { qubit: *qubit, theta: CalcExpr::Literal { value: v } },
            ),
            Err(e) => Err(e),
        },
        Operation::RotateZ { qubit, theta } => match eval(theta, b) {
            Ok(v) => Ok(
                Operation::RotateZ { qubit: *qubit, theta: CalcExpr::Literal { value: v } },
            ),
            Err(e) => Err(e),
        },
        Operation::DefinitionBit { name, length, is_output } => Ok(
            Operation::DefinitionBit {
                name: clone_bytes(name),
                length: *length,
                is_output: *is_output,
            },
        ),
        Operation::DefinitionFloat { name, length, is_output } => Ok(
            Operation::DefinitionFloat {
                name: clone_bytes(name),
                length: *length,
                is_output: *is_output,
            },
        ),
        Operation::DefinitionComplex { name, length, is_output } => Ok(
            Operation::DefinitionComplex {
                name: clone_bytes(name),
                length: *length,
                is_output: *is_output,
            },
        ),
        Operation::MeasureQubit { qubit, readout, readout_index } => Ok(
            Operation::MeasureQubit {
                qubit: *qubit,
                readout: clone_bytes(readout),
                readout_index: *readout_index,
            },
        ),
        Operation::PragmaRepeatedMeasurement { readout, number_measurements, qubit_mapping } => {
            let mapping: Option<Vec<(usize, usize)>> = match qubit_mapping {
                Some(m) => Some(clone_pairs(m)),
                None => None,
            };
            Ok(
                Operation::PragmaRepeatedMeasurement {
                    readout: clone_bytes(readout),
                    number_measurements: *number_measurements,
                    qubit_mapping: mapping,
                },
            )
        },
        Operation::PragmaSetNumberOfMeasurements { number_measurements, readout } => Ok(
            Operation::PragmaSetNumberOfMeasurements {
                number_measurements: *number_measurements,
                readout: clone_bytes(readout),
            },
        ),
        Operation::PragmaSetStateVector { statevector } => Ok(
            Operation::PragmaSetStateVector { statevector: clone_amplitudes(statevector) },
        ),
        Operation::PragmaGetStateVector { readout, circuit } => match circuit {
            Some(c) => match bind_ops(&c.operations, b) {
                Ok(ops) => Ok(
                    Operation::PragmaGetStateVector {
                        readout: clone_bytes(readout),
                        circuit: Some(Circuit { operations: ops }),
                    },
                ),
                Err(e) => Err(e),
            },
            None => Ok(
                Operation::PragmaGetStateVector { readout: clone_bytes(readout), circuit: None },
            ),
        },
        Operation::PragmaConditional { condition_register, condition_index, circuit } => {
            match bind_ops(&circuit.operations, b) {
                Ok(ops) => Ok(
                    Operation::PragmaConditional {
                        condition_register: clone_bytes(condition_register),
                        condition_index: *condition_index,
                        circuit: Circuit { operations: ops },
                    },
                ),
                Err(e) => Err(e),
            }
        },
    }
}

/// Substitutes a sequence of operations under a binding, stopping at the
/// first failure in operation order.
fn bind_ops(ops: &Vec<Operation>, b: &Bindings) -> (r: Result<Vec<Operation>, RoqoqoError>)
    ensures
        match r {
            Ok(out) => spec_bind_ops(ops_view(ops@), b@) == Ok::<Seq<SpecOp>, SpecError>(
                ops_view(out@),
            ),
            Err(e) => spec_bind_ops(ops_view(ops@), b@) == Err::<Seq<SpecOp>, SpecError>(e@),
        },
    decreases *ops,
{
    let ghost vs = ops_view(ops@);
    proof {
        lemma_ops_view(ops@);
        assert(vs.skip(0) =~= vs);
    }
    let mut out: Vec<Operation> = Vec::new();
    let mut i: usize = 0;
    while i < ops.len()
        invariant
            i <= ops.len(),
            vs == ops_view(ops@),
            vs.len() == ops@.len(),
            forall|j: int| 0 <= j < ops@.len() ==> vs[j] == op_view(ops@[j]),
            ops_view(out@).len() == out@.len(),
            match spec_bind_ops(vs.skip(i as int), b@) {
                Ok(rest) => spec_bind_ops(vs, b@) == Ok::<Seq<SpecOp>, SpecError>(
                    ops_view(out@) + rest,
                ),
                Err(e) => spec_bind_ops(vs, b@) == Err::<Seq<SpecOp>, SpecError>(e),
            },
        decreases ops.len() - i,
    {
        proof {
            lemma_bind_ops_step(vs, b@, i as int);
        }
        match bind_op(&ops[i], b) {
            Ok(o) => {
                let ghost out_old = out@;
                out.push(o);
                proof {
                    lemma_ops_view(out_old);
                    lemma_ops_view(out@);
                    assert(out@.drop_last() =~= out_old);
                    assert(ops_view(out@) =~= ops_view(out_old).push(op_view(o)));
                    match spec_bind_ops(vs.skip(i + 1), b@) {
                        Ok(rest) => {
                            assert(ops_view(out_old) + (Seq::empty().push(op_view(o)) + rest)
                                =~= ops_view(out@) + rest);
                        },
                        Err(_) => {},
                    }
                }
            },
            Err(e) => {
                return Err(e);
            },
        }
        i = i + 1;
    }
    proof {
        assert(vs.skip(i as int).len() == 0);
        assert(spec_bind_ops(vs.skip(i as int), b@) == Ok::<Seq<SpecOp>, SpecError>(Seq::empty()));
        assert(ops_view(out@) + Seq::<SpecOp>::empty() =~= ops_view(out@));
    }
    Ok(out)
}

/// Whether evaluating `e` under `b` meets no arithmetic fault: its
/// result is either a value or an unbound-name report.
pub open spec fn eval_unbound_only(e: SpecExpr, b: Seq<(Seq<u8>, int)>) -> bool {
    match spec_eval(e, b) {
        Ok(_) => true,
        Err(SpecError::UnboundParameter { .. }) => true,
        Err(_) => false,
    }
}

/// Whether substituting one operation under `b` meets no arithmetic
/// fault.
pub open spec fn op_unbound_only(op: SpecOp, b: Seq<(Seq<u8>, int)>) -> bool
    decreases op,
{
    match op {
        SpecOp::RotateX { theta, .. } => eval_unbound_only(theta, b),
        SpecOp::RotateY { theta, .. } => eval_unbound_only(theta, b),
        SpecOp::RotateZ { theta, .. } => eval_unbound_only(theta, b),
        SpecOp::PragmaGetStateVector { circuit, .. } => match circuit {
            Some(c) => ops_unbound_only(c, b),
            None => true,
        },
        SpecOp::PragmaConditional { circuit, .. } => ops_unbound_only(circuit, b),
        _ => true,
    }
}

/// Whether substituting a sequence of operations under `b` meets no
/// arithmetic fault.
pub open spec fn ops_unbound_only(s: Seq<SpecOp>, b: Seq<(Seq<u8>, int)>) -> bool
    decreases s,
{
    if s.len() == 0 {
        true
    } else {
        op_unbound_only(s[0], b) && ops_unbound_only(s.drop_first(), b)
    }
}

/// Evaluation totality: when no arithmetic fault occurs, evaluation
/// succeeds exactly when every name the expression mentions is bound,
/// and a failure reports an unbound mentioned name.
pub proof fn lemma_eval_totality(e: SpecExpr, b: Seq<(Seq<u8>, int)>)
    requires
        eval_unbound_only(e, b),
    ensures
        (spec_eval(e, b) is Ok) <==> (forall|n: Seq<u8>|
            expr_names(e).contains(n) ==> lookup_binding(b, n) is Some),
        match spec_eval(e, b) {
            Err(SpecError::UnboundParameter { name }) => expr_names(e).contains(name)
                && lookup_binding(b, name) is None,
            _ => true,
        },
    decreases e, 1int,
{
    match e {
        SpecExpr::Literal { .. } => {},
        SpecExpr::Variable { name } => {
            if lookup_binding(b, name) is None {
                assert(expr_names(e).contains(name));
            }
        },
        SpecExpr::Add { left, right } => {
            lemma_eval_binop_totality(*left, *right, e, b);
        },
        SpecExpr::Sub { left, right } => {
            lemma_eval_binop_totality(*left, *right, e, b);
        },
        SpecExpr::Mul { left, right } => {
            lemma_eval_binop_totality(*left, *right, e, b);
        },
        SpecExpr::Div { left, right } => {
            lemma_eval_binop_totality(*left, *right, e, b);
        },
    }
}

/// Helper for `lemma_eval_totality` on an arithmetic node `e` with the
/// two children `l` and `r`.
proof fn lemma_eval_binop_totality(l: SpecExpr, r: SpecExpr, e: SpecExpr, b: Seq<(Seq<u8>, int)>)
    requires
        eval_unbound_only(e, b),
        e == (SpecExpr::Add { left: Box::new(l), right: Box::new(r) }) || e == (SpecExpr::Sub {
            left: Box::new(l),
            right: Box::new(r),
        }) || e == (SpecExpr::Mul { left: Box::new(l), right: Box::new(r) }) || e == (SpecExpr::Div {
            left: Box::new(l),
            right: Box::new(r),
        }),
        decreases_to!(e => l),
        decreases_to!(e => r),
    ensures
        (spec_eval(e, b) is Ok) <==> (forall|n: Seq<u8>|
            expr_names(e).contains(n) ==> lookup_binding(b, n) is Some),
        match spec_eval(e, b) {
            Err(SpecError::UnboundParameter { name }) => expr_names(e).contains(name)
                && lookup_binding(b, name) is None,
            _ => true,
        },
    decreases e, 0int,
{
    assert(expr_names(e) == expr_names(l).union(expr_names(r)));
    match spec_eval(l, b) {
        Ok(_) => {
            lemma_eval_totality(l, b);
            match spec_eval(r, b) {
                Ok(_) => {
                    lemma_eval_totality(r, b);
                },
                Err(SpecError::UnboundParameter { name }) => {
                    lemma_eval_totality(r, b);
                    assert(spec_eval(e, b) == Err::<int, SpecError>(
                        SpecError::UnboundParameter { name },
                    ));
                    assert(expr_names(e).contains(name));
                },
                Err(_) => {
                    assert(false);
                },
            }
        },
        Err(SpecError::UnboundParameter { name }) => {
            lemma_eval_totality(l, b);
            assert(spec_eval(e, b) == Err::<int, SpecError>(SpecError::UnboundParameter { name }));
            assert(expr_names(e).contains(name));
        },
        Err(_) => {
            assert(false);
        },
    }
}

/// Substitution totality for one operation.
pub proof fn lemma_bind_op_totality(op: SpecOp, b: Seq<(Seq<u8>, int)>)
    requires
        op_unbound_only(op, b),
    ensures
        (spec_bind_op(op, b) is Ok) <==> (forall|n: Seq<u8>|
            op_param_names(op).contains(n) ==> lookup_binding(b, n) is Some),
        match spec_bind_op(op, b) {
            Err(SpecError::UnboundParameter { name }) => op_param_names(op).contains(name)
                && lookup_binding(b, name) is None,
            Err(_) => false,
            Ok(o) => op_param_names(o) =~= Set::empty(),
        },
    decreases op,
{
    match op {
        SpecOp::RotateX { theta, .. } => {
            lemma_eval_totality(theta, b);
            assert(op_param_names(op) == expr_names(theta));
            match spec_eval(theta, b) {
                Err(SpecError::UnboundParameter { name }) => {
                    assert(op_param_names(op).contains(name));
                },
                _ => {},
            }
        },
        SpecOp::RotateY { theta, .. } => {
            lemma_eval_totality(theta, b);
            assert(op_param_names(op) == expr_names(theta));
            match spec_eval(theta, b) {
                Err(SpecError::UnboundParameter { name }) => {
                    assert(op_param_names(op).contains(name));
                },
                _ => {},
            }
        },
        SpecOp::RotateZ { theta, .. } => {
            lemma_eval_totality(theta, b);
            assert(op_param_names(op) == expr_names(theta));
            match spec_eval(theta, b) {
                Err(SpecError::UnboundParameter { name }) => {
                    assert(op_param_names(op).contains(name));
                },
                _ => {},
            }
        },
        SpecOp::PragmaGetStateVector { circuit, .. } => {
            match circuit {
                Some(c) => {
                    lemma_bind_ops_totality(c, b);
                    assert(op_param_names(op) == ops_param_names(c));
                    match spec_bind_ops(c, b) {
                        Err(SpecError::UnboundParameter { name }) => {
                            assert(op_param_names(op).contains(name));
                        },
                        _ => {},
                    }
                },
                None => {
                    assert(op_param_names(op) =~= Set::empty());
                },
            }
        },
        SpecOp::PragmaConditional { circuit, .. } => {
            lemma_bind_ops_totality(circuit, b);
            assert(op_param_names(op) == ops_param_names(circuit));
            match spec_bind_ops(circuit, b) {
                Err(SpecError::UnboundParameter { name }) => {
                    assert(op_param_names(op).contains(name));
                },
                _ => {},
            }
        },
        _ => {
            assert(op_param_names(op) =~= Set::empty());
            match spec_bind_op(op, b) {
                Ok(o) => {
                    assert(op_param_names(o) =~= Set::empty());
                },
                Err(_) => {},
            }
        },
    }
}

/// Substitution totality: when no arithmetic fault occurs, binding a
/// sequence of operations succeeds exactly when every symbolic name it
/// mentions is bound; a failure reports an unbound mentioned name; and a
/// successful result mentions no symbolic names at all.
pub proof fn lemma_bind_ops_totality(s: Seq<SpecOp>, b: Seq<(Seq<u8>, int)>)
    requires
        ops_unbound_only(s, b),
    ensures
        (spec_bind_ops(s, b) is Ok) <==> (forall|n: Seq<u8>|
            ops_param_names(s).contains(n) ==> lookup_binding(b, n) is Some),
        match spec_bind_ops(s, b) {
            Err(SpecError::UnboundParameter { name }) => ops_param_names(s).contains(name)
                && lookup_binding(b, name) is None,
            Err(_) => false,
            Ok(s2) => ops_param_names(s2) =~= Set::empty(),
        },
    decreases s,
{
    if s.len() == 0 {
        assert(ops_param_names(s) =~= Set::empty());
        match spec_bind_ops(s, b) {
            Ok(s2) => {
                assert(ops_param_names(s2) =~= Set::empty());
            },
            Err(_) => {},
        }
    } else {
        let op = s[0];
        let rest = s.drop_first();
        lemma_bind_op_totality(op, b);
        lemma_bind_ops_totality(rest, b);
        assert(ops_param_names(s) == op_param_names(op).union(ops_param_names(rest)));
        match spec_bind_op(op, b) {
            Err(SpecError::UnboundParameter { name }) => {
                assert(ops_param_names(s).contains(name));
            },
            Err(_) => {},
            Ok(o) => {
                match spec_bind_ops(rest, b) {
                    Err(SpecError::UnboundParameter { name }) => {
                        assert(ops_param_names(s).contains(name));
                    },
                    Err(_) => {},
                    Ok(rest2) => {
                        let s2 = Seq::empty().push(o) + rest2;
                        assert(s2[0] == o);
                        assert(s2.drop_first() =~= rest2);
                        assert(ops_param_names(s2) == op_param_names(o).union(
                            ops_param_names(rest2),
                        ));
                        assert(ops_param_names(s2) =~= Set::empty());
                    },
                }
            },
        }
    }
}

impl Circuit {
    /// Produces a new circuit with every symbolic angle replaced by its
    /// numeric evaluation under `bindings`; the receiver is untouched.
    /// Fails on the first unresolved name in operation order.
    pub fn substitute_parameters(&self, bindings: &Bindings) -> (r: Result<Circuit, RoqoqoError>)
        ensures
            match r {
                Ok(c) => spec_bind_ops(self@, bindings@) == Ok::<Seq<SpecOp>, SpecError>(c@),
                Err(e) => spec_bind_ops(self@, bindings@) == Err::<Seq<SpecOp>, SpecError>(e@),
            },
    {
        match bind_ops(&self.operations, bindings) {
            Ok(ops) => Ok(Circuit { operations: ops }),
            Err(e) => Err(e),
        }
    }
}

/// Whether a name occurs in a name list.
pub open spec fn list_contains(s: Seq<Vec<u8>>, n: Seq<u8>) -> bool {
    exists|i: int| 0 <= i < s.len() && (#[trigger] s[i])@ == n
}

/// Whether a name list holds no name twice.
pub open spec fn list_distinct(s: Seq<Vec<u8>>) -> bool {
    forall|i: int, j: int| 0 <= i < j < s.len() ==> (#[trigger] s[i])@ != (#[trigger] s[j])@
}

/// Adds a name to the list unless it is already there.
fn push_name_if_new(out: &mut Vec<Vec<u8>>, n: Vec<u8>)
    requires
        list_distinct(old(out)@),
    ensures
        list_distinct(final(out)@),
        forall|m: Seq<u8>|
            list_contains(final(out)@, m) <==> (list_contains(old(out)@, m) || m == n@),
{
    let mut seen = false;
    let mut i: usize = 0;
    while i < out.len()
        invariant
            i <= out.len(),
            seen <==> exists|k: int| 0 <= k < i && (#[trigger] out@[k])@ == n@,
        decreases out.len() - i,
    {
        if crate::bytes::bytes_eq(&out[i], &n) {
            seen = true;
        }
        i = i + 1;
    }
    let ghost out_old = out@;
    if !seen {
        out.push(n);
        proof {
            assert(out@[out_old.len() as int]@ == n@);
            assert forall|a: int, b: int| 0 <= a < b < out@.len() implies (#[trigger] out@[a])@
                != (#[trigger] out@[b])@ by {
                if b < out_old.len() {
                    assert(out@[a] == out_old[a] && out@[b] == out_old[b]);
                } else {
                    assert(out@[a] == out_old[a] && out@[b]@ == n@);
                }
            }
            assert forall|m: Seq<u8>| list_contains(out@, m) implies (list_contains(out_old, m) || m
                == n@) by {
                let k = choose|k: int| 0 <= k < out@.len() && (#[trigger] out@[k])@ == m;
                if k < out_old.len() {
                    assert(out_old[k]@ == m);
                }
            }
            assert forall|m: Seq<u8>| list_contains(out_old, m) implies list_contains(
                out@,
                m,
            ) by {
                let k = choose|k: int| 0 <= k < out_old.len() && (#[trigger] out_old[k])@ == m;
                assert(out@[k]@ == m);
            }
        }
    } else {
        proof {
            let k = choose|k: int| 0 <= k < out@.len() && (#[trigger] out@[k])@ == n@;
            assert(list_contains(out@, n@));
        }
    }
}

/// Collects the names an expression mentions.
fn collect_expr_names(e: &CalcExpr, out: &mut Vec<Vec<u8>>)
    requires
        list_distinct(old(out)@),
    ensures
        list_distinct(final(out)@),
        forall|m: Seq<u8>|
            list_contains(final(out)@, m) <==> (list_contains(old(out)@, m) || expr_names(
                e@,
            ).contains(m)),
    decreases *e,
{
    match e {
        CalcExpr::Literal { .. } => {},
        CalcExpr::Variable { name } => {
            push_name_if_new(out, clone_bytes(name));
        },
        CalcExpr::Add { left, right } => {
            collect_expr_names(left, out);
            collect_expr_names(right, out);
        },
        CalcExpr::Sub { left, right } => {
            collect_expr_names(left, out);
            collect_expr_names(right, out);
        },
        CalcExpr::Mul { left, right } => {
            collect_expr_names(left, out);
            collect_expr_names(right, out);
        },
        CalcExpr::Div { left, right } => {
            collect_expr_names(left, out);
            collect_expr_names(right, out);
        },
    }
}

/// The names of a sequence grow by one operation's names at the end.
proof fn lemma_ops_param_names_push(s: Seq<SpecOp>, x: SpecOp)
    ensures
        ops_param_names(s.push(x)) =~= ops_param_names(s).union(op_param_names(x)),
    decreases s,
{
    if s.len() == 0 {
        assert(s.push(x)[0] == x);
        assert(s.push(x).drop_first() =~= Seq::<SpecOp>::empty());
        assert(ops_param_names(Seq::<SpecOp>::empty()) =~= Set::<Seq<u8>>::empty());
        assert(ops_param_names(s.push(x)) == op_param_names(x).union(
            ops_param_names(s.push(x).drop_first()),
        ));
        assert(op_param_names(x).union(Set::empty()) =~= op_param_names(x));
        assert(ops_param_names(s) =~= Set::<Seq<u8>>::empty());
        assert(ops_param_names(s).union(op_param_names(x)) =~= op_param_names(x));
    } else {
        assert(s.push(x)[0] == s[0]);
        assert(s.push(x).drop_first() =~= s.drop_first().push(x));
        lemma_ops_param_names_push(s.drop_first(), x);
    }
}

/// Collects the names one operation mentions.
fn collect_op_names(op: &Operation, out: &mut Vec<Vec<u8>>)
    requires
        list_distinct(old(out)@),
    ensures
        list_distinct(final(out)@),
        forall|m: Seq<u8>|
            list_contains(final(out)@, m) <==> (list_contains(old(out)@, m) || op_param_names(
                op@,
            ).contains(m)),
    decreases *op,
{
    match op {
        Operation::RotateX { theta, .. } => {
            collect_expr_names(theta, out);
        },
        Operation::RotateY { theta, .. } => {
            collect_expr_names(theta, out);
        },
        Operation::RotateZ { theta, .. } => {
            collect_expr_names(theta, out);
        },
        Operation::PragmaGetStateVector { circuit, .. } => {
            match circuit {
                Some(c) => {
                    collect_ops_names(&c.operations, out);
                },
                None => {},
            }
        },
        Operation::PragmaConditional { circuit, .. } => {
            collect_ops_names(&circuit.operations, out);
        },
        _ => {},
    }
}

/// Collects the names a sequence of operations mentions.
fn collect_ops_names(ops: &Vec<Operation>, out: &mut Vec<Vec<u8>>)
    requires
        list_distinct(old(out)@),
    ensures
        list_distinct(final(out)@),
        forall|m: Seq<u8>|
            list_contains(final(out)@, m) <==> (list_contains(old(out)@, m) || ops_param_names(
                ops_view(ops@),
            ).contains(m)),
    decreases *ops,
{
    let ghost vs = ops_view(ops@);
    proof {
        lemma_ops_view(ops@);
        assert(vs.take(0) =~= Seq::<SpecOp>::empty());
    }
    let mut i: usize = 0;
    while i < ops.len()
        invariant
            i <= ops.len(),
            vs == ops_view(ops@),
            vs.len() == ops@.len(),
            forall|j: int| 0 <= j < ops@.len() ==> vs[j] == op_view(ops@[j]),
            list_distinct(out@),
            forall|m: Seq<u8>|
                list_contains(out@, m) <==> (list_contains(old(out)@, m) || ops_param_names(
                    vs.take(i as int),
                ).contains(m)),
        decreases ops.len() - i,
    {
        collect_op_names(&ops[i], out);
        proof {
            assert(vs.take(i + 1) =~= vs.take(i as int).push(vs[i as int]));
            lemma_ops_param_names_push(vs.take(i as int), vs[i as int]);
        }
        i = i + 1;
    }
    proof {
        assert(vs.take(i as int) =~= vs);
    }
}

impl Circuit {
    /// The set of unresolved symbolic parameter names of this circuit:
    /// each mentioned name exactly once.
    pub fn symbolic_parameters(&self) -> (r: Vec<Vec<u8>>)
        ensures
            list_distinct(r@),
            forall|m: Seq<u8>| list_contains(r@, m) <==> ops_param_names(self@).contains(m),
    {
        let mut out: Vec<Vec<u8>> = Vec::new();
        collect_ops_names(&self.operations, &mut out);
        out
    }
}

} // verus!
