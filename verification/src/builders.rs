//! Circuit constructors for the library's demonstration algorithms:
//! entangling pairs, Deutsch-Jozsa style oracles, a half adder, state
//! teleportation, and the hopping and magnetic-field evolution layers of
//! a small variational ansatz.  Every constructor states the exact
//! operation sequence it builds.

use vstd::prelude::*;

use crate::bytes::clone_bytes;
use crate::circuit::Circuit;
use crate::circuit::Operation;
use crate::circuit::SpecOp;
use crate::codec::push_digits;
use crate::codec::spec_enc_u64;
use crate::expression::CalcExpr;
use crate::expression::SpecExpr;
use crate::fixed::Fixed;

verus! {

broadcast use vstd::seq::group_seq_axioms, vstd::std_specs::vec::group_vec_axioms;

/// A row of Hadamard gates on qubits 0 through `n - 1`.
pub open spec fn hadamard_row(n: int) -> Seq<SpecOp> {
    Seq::new(n as nat, |q: int| SpecOp::Hadamard { qubit: q })
}

/// Appends Hadamard gates on qubits 0 through `n - 1`.
fn push_hadamard_row(c: &mut Circuit, n: usize)
    ensures
        final(c)@ =~= old(c)@ + hadamard_row(n as int),
{
    let mut i: usize = 0;
    while i < n
        invariant
            i <= n,
            c@ =~= old(c)@ + hadamard_row(i as int),
        decreases n - i,
    {
        c.add_operation(Operation::Hadamard { qubit: i });
        proof {
            assert(hadamard_row(i + 1) =~= hadamard_row(i as int).push(
                SpecOp::Hadamard { qubit: i as int },
            ));
        }
        i = i + 1;
    }
}

/// The two-qubit entangling snippet: a superposition on each of the two
/// qubits, then an entangling gate.
pub fn entangling_circuit() -> (r: Circuit)
    ensures
        r@ =~= seq![
            SpecOp::Hadamard { qubit: 0 },
            SpecOp::Hadamard { qubit: 1 },
            SpecOp::CNOT { control: 0, target: 1 },
        ],
{
    let mut c = Circuit::new();
    c.add_operation(Operation::Hadamard { qubit: 0 });
    c.add_operation(Operation::Hadamard { qubit: 1 });
    c.add_operation(Operation::CNOT { control: 0, target: 1 });
    c
}

/// The entangling snippet with a bit register and repeated sampling:
/// the circuit whose ideal measurement rows always carry equal bits.
pub fn bell_measurement_circuit(readout: Vec<u8>, number_measurements: usize) -> (r: Circuit)
    ensures
        r@ =~= seq![
            SpecOp::DefinitionBit { name: readout@, length: 2, is_output: true },
            SpecOp::Hadamard { qubit: 0 },
            SpecOp::CNOT { control: 0, target: 1 },
            SpecOp::PragmaRepeatedMeasurement {
                readout: readout@,
                number_measurements: number_measurements as int,
                qubit_mapping: None,
            },
        ],
{
    let mut c = Circuit::new();
    let name2 = clone_bytes(&readout);
    c.add_operation(Operation::DefinitionBit { name: readout, length: 2, is_output: true });
    c.add_operation(Operation::Hadamard { qubit: 0 });
    c.add_operation(Operation::CNOT { control: 0, target: 1 });
    c.add_operation(
        Operation::PragmaRepeatedMeasurement {
            readout: name2,
            number_measurements,
            qubit_mapping: None,
        },
    );
    c
}

/// The Deutsch-Jozsa skeleton around an oracle: flip the work qubit,
/// bring every qubit into superposition, query the oracle once, and undo
/// the superposition of the input qubits.
pub open spec fn deutsch_josza_view(number_qubits: int, oracle: Seq<SpecOp>) -> Seq<SpecOp> {
    seq![SpecOp::PauliX { qubit: number_qubits }] + hadamard_row(number_qubits) + seq![
        SpecOp::Hadamard { qubit: number_qubits },
    ] + oracle + hadamard_row(number_qubits)
}

/// Builds the Deutsch-Jozsa circuit around the given oracle.
pub fn deutsch_josza_circuit(number_qubits: usize, oracle: Circuit) -> (r: Circuit)
    ensures
        r@ =~= deutsch_josza_view(number_qubits as int, oracle@),
{
    let mut c = Circuit::new();
    c.add_operation(Operation::PauliX { qubit: number_qubits });
    push_hadamard_row(&mut c, number_qubits);
    c.add_operation(Operation::Hadamard { qubit: number_qubits });
    let mut c = c.concat(oracle);
    push_hadamard_row(&mut c, number_qubits);
    c
}

/// A balanced oracle: one controlled flip of the work qubit per input
/// qubit.
pub fn balanced_oracle(number_qubits: usize) -> (r: Circuit)
    ensures
        r@ =~= Seq::new(
            number_qubits as nat,
            |c: int| SpecOp::CNOT { control: c, target: number_qubits as int },
        ),
{
    let mut c = Circuit::new();
    let mut i: usize = 0;
    while i < number_qubits
        invariant
            i <= number_qubits,
            c@ =~= Seq::new(
                i as nat,
                |k: int| SpecOp::CNOT { control: k, target: number_qubits as int },
            ),
        decreases number_qubits - i,
    {
        c.add_operation(Operation::CNOT { control: i, target: number_qubits });
        proof {
            assert(Seq::new(
                (i + 1) as nat,
                |k: int| SpecOp::CNOT { control: k, target: number_qubits as int },
            ) =~= Seq::new(
                i as nat,
                |k: int| SpecOp::CNOT { control: k, target: number_qubits as int },
            ).push(SpecOp::CNOT { control: i as int, target: number_qubits as int }));
        }
        i = i + 1;
    }
    c
}

/// A constant oracle: one unconditional flip of the work qubit.
pub fn constant_oracle(number_qubits: usize) -> (r: Circuit)
    ensures
        r@ =~= seq![SpecOp::PauliX { qubit: number_qubits as int }],
{
    let mut c = Circuit::new();
    c.add_operation(Operation::PauliX { qubit: number_qubits });
    c
}

/// Whether a sampled row shows the all-clear pattern that identifies a
/// constant oracle: every measured bit is unset.
pub fn checking_constant(res: &Vec<bool>) -> (r: bool)
    ensures
        r <==> (forall|j: int| 0 <= j < res@.len() ==> !res@[j]),
{
    let mut i: usize = 0;
    while i < res.len()
        invariant
            i <= res.len(),
            forall|j: int| 0 <= j < i ==> !res@[j],
        decreases res.len() - i,
    {
        if res[i] {
            return false;
        }
        i = i + 1;
    }
    true
}

/// A bit register declaration followed by one projective measurement of
/// qubit `q` into slot `q`, for qubits 0 through `n - 1`.
pub open spec fn measurement_suffix_view(name: Seq<u8>, n: int) -> Seq<SpecOp> {
    seq![SpecOp::DefinitionBit { name: name, length: n, is_output: true }] + Seq::new(
        n as nat,
        |q: int| SpecOp::MeasureQubit { qubit: q, readout: name, readout_index: q },
    )
}

/// Declares a bit register and measures qubits 0 through
/// `number_qubits - 1` into it, slot by slot.
pub fn measurement_suffix(name: Vec<u8>, number_qubits: usize) -> (r: Circuit)
    ensures
        r@ =~= measurement_suffix_view(name@, number_qubits as int),
{
    let mut c = Circuit::new();
    let ghost nm = name@;
    let def_name = clone_bytes(&name);
    c.add_operation(
        Operation::DefinitionBit { name: def_name, length: number_qubits, is_output: true },
    );
    let mut i: usize = 0;
    while i < number_qubits
        invariant
            i <= number_qubits,
            nm == name@,
            c@ =~= seq![
                SpecOp::DefinitionBit { name: nm, length: number_qubits as int, is_output: true },
            ] + Seq::new(
                i as nat,
                |q: int| SpecOp::MeasureQubit { qubit: q, readout: nm, readout_index: q },
            ),
        decreases number_qubits - i,
    {
        let slot_name = clone_bytes(&name);
        c.add_operation(
            Operation::MeasureQubit { qubit: i, readout: slot_name, readout_index: i },
        );
        proof {
            assert(Seq::new(
                (i + 1) as nat,
                |q: int| SpecOp::MeasureQubit { qubit: q, readout: nm, readout_index: q },
            ) =~= Seq::new(
                i as nat,
                |q: int| SpecOp::MeasureQubit { qubit: q, readout: nm, readout_index: q },
            ).push(
                SpecOp::MeasureQubit {
                    qubit: i as int,
                    readout: nm,
                    readout_index: i as int,
                },
            ));
        }
        i = i + 1;
    }
    c
}

/// A rotation angle of the form `parameter * scale`.
pub open spec fn scaled_parameter(name: Seq<u8>, scale: int) -> SpecExpr {
    SpecExpr::Mul {
        left: Box::new(SpecExpr::Variable { name }),
        right: Box::new(SpecExpr::Literal { value: scale }),
    }
}

/// Builds the angle expression `parameter * scale`.
fn scaled_parameter_expr(name: &Vec<u8>, scale: Fixed) -> (r: CalcExpr)
    ensures
        r@ == scaled_parameter(name@, scale.units as int),
{
    let var = CalcExpr::Variable { name: clone_bytes(name) };
    let lit = CalcExpr::Literal { value: scale };
    proof {
        assert(var@ == (SpecExpr::Variable { name: name@ }));
        assert(lit@ == (SpecExpr::Literal { value: scale.units as int }));
    }
    let r = CalcExpr::Mul { left: Box::new(var), right: Box::new(lit) };
    proof {
        assert(r@ == scaled_parameter(name@, scale.units as int));
    }
    r
}

/// One hopping interaction between qubits `k` and `k + 1`: a basis
/// rotation into the measurement basis, the interaction, and the basis
/// rotation back.
pub open spec fn hopping_block(k: int, name: Seq<u8>, t: int) -> Seq<SpecOp> {
    seq![
        SpecOp::Hadamard { qubit: k },
        SpecOp::Hadamard { qubit: k + 1 },
        SpecOp::CNOT { control: k + 1, target: k },
        SpecOp::RotateZ { qubit: k, theta: scaled_parameter(name, t) },
        SpecOp::CNOT { control: k + 1, target: k },
        SpecOp::Hadamard { qubit: k },
        SpecOp::Hadamard { qubit: k + 1 },
    ]
}

/// Appends one hopping block at qubit `k`.
fn push_hopping_block(c: &mut Circuit, k: usize, name: &Vec<u8>, t: Fixed)
    requires
        k < usize::MAX,
    ensures
        final(c)@ =~= old(c)@ + hopping_block(k as int, name@, t.units as int),
{
    c.add_operation(Operation::Hadamard { qubit: k });
    c.add_operation(Operation::Hadamard { qubit: k + 1 });
    c.add_operation(Operation::CNOT { control: k + 1, target: k });
    c.add_operation(Operation::RotateZ { qubit: k, theta: scaled_parameter_expr(name, t) });
    c.add_operation(Operation::CNOT { control: k + 1, target: k });
    c.add_operation(Operation::Hadamard { qubit: k });
    c.add_operation(Operation::Hadamard { qubit: k + 1 });
    proof {
        assert(c@ =~= old(c)@ + hopping_block(k as int, name@, t.units as int));
    }
}

/// The first `m` even-to-odd hopping blocks, at qubits 0, 2, 4, ...
pub open spec fn even_hopping_view(m: int, name: Seq<u8>, t: int) -> Seq<SpecOp>
    decreases m,
{
    if m <= 0 {
        Seq::empty()
    } else {
        even_hopping_view(m - 1, name, t) + hopping_block(2 * (m - 1), name, t)
    }
}

/// The time-like evolution under even-to-odd hopping: one hopping block
/// per even qubit with an even-to-odd neighbour.
pub fn create_even_hopping_circuit(
    theta_name: &Vec<u8>,
    number_qubits: usize,
    hopping_parameter: Fixed,
) -> (r: Circuit)
    ensures
        r@ =~= even_hopping_view(
            number_qubits as int / 2,
            theta_name@,
            hopping_parameter.units as int,
        ),
{
    let mut c = Circuit::new();
    let mut j: usize = 0;
    while 2 * j + 1 < number_qubits
        invariant
            2 * j <= number_qubits + 1,
            j >= 1 ==> 2 * j - 1 < number_qubits,
            c@ =~= even_hopping_view(j as int, theta_name@, hopping_parameter.units as int),
        decreases number_qubits - 2 * j,
    {
        push_hopping_block(&mut c, 2 * j, theta_name, hopping_parameter);
        j = j + 1;
    }
    proof {
        assert(j as int == number_qubits as int / 2);
    }
    c
}

/// The first `m` odd-to-even hopping blocks, at qubits 1, 3, 5, ...
pub open spec fn odd_hopping_view(m: int, name: Seq<u8>, t: int) -> Seq<SpecOp>
    decreases m,
{
    if m <= 0 {
        Seq::empty()
    } else {
        odd_hopping_view(m - 1, name, t) + hopping_block(2 * (m - 1) + 1, name, t)
    }
}

/// The boundary hopping block between the last and the first qubit.
pub open spec fn boundary_block(last: int, name: Seq<u8>, t: int) -> Seq<SpecOp> {
    seq![
        SpecOp::Hadamard { qubit: last },
        SpecOp::Hadamard { qubit: 0 },
        SpecOp::CNOT { control: 0, target: last },
        SpecOp::RotateZ { qubit: last, theta: scaled_parameter(name, t) },
        SpecOp::CNOT { control: 0, target: last },
        SpecOp::Hadamard { qubit: last },
        SpecOp::Hadamard { qubit: 0 },
    ]
}

/// The time-like evolution under odd-to-even hopping, with periodic
/// boundary conditions.
pub fn create_odd_hopping_circuit(
    theta_name: &Vec<u8>,
    number_qubits: usize,
    hopping_parameter: Fixed,
) -> (r: Circuit)
    requires
        number_qubits >= 1,
    ensures
        r@ =~= odd_hopping_view(
            (number_qubits - 1) as int / 2,
            theta_name@,
            hopping_parameter.units as int,
        ) + boundary_block(
            number_qubits as int - 1,
            theta_name@,
            hopping_parameter.units as int,
        ),
{
    let mut c = Circuit::new();
    let mut j: usize = 0;
    while 2 * j < number_qubits && number_qubits - 2 * j > 2
        invariant
            number_qubits >= 1,
            2 * j <= number_qubits,
            j >= 1 ==> 2 * j < number_qubits,
            c@ =~= odd_hopping_view(j as int, theta_name@, hopping_parameter.units as int),
        decreases number_qubits - 2 * j,
    {
        push_hopping_block(&mut c, 2 * j + 1, theta_name, hopping_parameter);
        j = j + 1;
    }
    proof {
        assert(j as int == (number_qubits - 1) as int / 2);
    }
    let last = number_qubits - 1;
    c.add_operation(Operation::Hadamard { qubit: last });
    c.add_operation(Operation::Hadamard { qubit: 0 });
    c.add_operation(Operation::CNOT { control: 0, target: last });
    c.add_operation(
        Operation::RotateZ {
            qubit: last,
            theta: scaled_parameter_expr(theta_name, hopping_parameter),
        },
    );
    c.add_operation(Operation::CNOT { control: 0, target: last });
    c.add_operation(Operation::Hadamard { qubit: last });
    c.add_operation(Operation::Hadamard { qubit: 0 });
    proof {
        assert(c@ =~= odd_hopping_view(
            (number_qubits - 1) as int / 2,
            theta_name@,
            hopping_parameter.units as int,
        ) + boundary_block(
            number_qubits as int - 1,
            theta_name@,
            hopping_parameter.units as int,
        ));
    }
    c
}

/// The evolution under the magnetic field: one scaled rotation per
/// qubit.
pub open spec fn magnetic_view(n: int, name: Seq<u8>, b: int) -> Seq<SpecOp> {
    Seq::new(n as nat, |k: int| SpecOp::RotateZ { qubit: k, theta: scaled_parameter(name, b) })
}

/// The time-like evolution under the magnetic term.
pub fn create_magnetic_field_circuit(
    theta_name: &Vec<u8>,
    number_qubits: usize,
    magnetic_field: Fixed,
) -> (r: Circuit)
    ensures
        r@ =~= magnetic_view(number_qubits as int, theta_name@, magnetic_field.units as int),
{
    let mut c = Circuit::new();
    let mut i: usize = 0;
    while i < number_qubits
        invariant
            i <= number_qubits,
            c@ =~= magnetic_view(i as int, theta_name@, magnetic_field.units as int),
        decreases number_qubits - i,
    {
        c.add_operation(
            Operation::RotateZ {
                qubit: i,
                theta: scaled_parameter_expr(theta_name, magnetic_field),
            },
        );
        proof {
            assert(magnetic_view(i + 1, theta_name@, magnetic_field.units as int) =~= magnetic_view(
                i as int,
                theta_name@,
                magnetic_field.units as int,
            ).push(
                SpecOp::RotateZ {
                    qubit: i as int,
                    theta: scaled_parameter(theta_name@, magnetic_field.units as int),
                },
            ));
        }
        i = i + 1;
    }
    c
}

/// A parameter name with a decimal index suffix.
pub fn indexed_name(prefix: &Vec<u8>, index: usize) -> (r: Vec<u8>)
    ensures
        r@ == prefix@ + spec_enc_u64(index as int),
{
    let mut r = clone_bytes(prefix);
    push_digits(&mut r, index as u64, 20);
    r
}

/// One iteration of the evolution: even hopping, odd hopping, magnetic
/// field, each under its own indexed parameter.
pub open spec fn evolution_layer_view(
    i: int,
    number_qubits: int,
    t: int,
    b: int,
    even_prefix: Seq<u8>,
    odd_prefix: Seq<u8>,
    z_prefix: Seq<u8>,
) -> Seq<SpecOp> {
    even_hopping_view(number_qubits / 2, even_prefix + spec_enc_u64(i), t) + (odd_hopping_view(
        (number_qubits - 1) / 2,
        odd_prefix + spec_enc_u64(i),
        t,
    ) + boundary_block(number_qubits - 1, odd_prefix + spec_enc_u64(i), t)) + magnetic_view(
        number_qubits,
        z_prefix + spec_enc_u64(i),
        b,
    )
}

/// The first `iters` evolution layers in order.
pub open spec fn evolution_view(
    iters: int,
    number_qubits: int,
    t: int,
    b: int,
    even_prefix: Seq<u8>,
    odd_prefix: Seq<u8>,
    z_prefix: Seq<u8>,
) -> Seq<SpecOp>
    decreases iters,
{
    if iters <= 0 {
        Seq::empty()
    } else {
        evolution_view(iters - 1, number_qubits, t, b, even_prefix, odd_prefix, z_prefix)
            + evolution_layer_view(
            iters - 1,
            number_qubits,
            t,
            b,
            even_prefix,
            odd_prefix,
            z_prefix,
        )
    }
}

/// The unitary evolution circuit: `iter_evolution` layers of even
/// hopping, odd hopping and magnetic rotation, each layer under its own
/// three indexed symbolic parameters.
pub fn create_evolution_circuit(
    iter_evolution: usize,
    number_qubits: usize,
    hopping_parameter: Fixed,
    magnetic_field: Fixed,
    even_prefix: &Vec<u8>,
    odd_prefix: &Vec<u8>,
    z_prefix: &Vec<u8>,
) -> (r: Circuit)
    requires
        number_qubits >= 1,
    ensures
        r@ =~= evolution_view(
            iter_evolution as int,
            number_qubits as int,
            hopping_parameter.units as int,
            magnetic_field.units as int,
            even_prefix@,
            odd_prefix@,
            z_prefix@,
        ),
{
    let mut c = Circuit::new();
    let mut i: usize = 0;
    while i < iter_evolution
        invariant
            i <= iter_evolution,
            number_qubits >= 1,
            c@ =~= evolution_view(
                i as int,
                number_qubits as int,
                hopping_parameter.units as int,
                magnetic_field.units as int,
                even_prefix@,
                odd_prefix@,
                z_prefix@,
            ),
        decreases iter_evolution - i,
    {
        let even_name = indexed_name(even_prefix, i);
        let odd_name = indexed_name(odd_prefix, i);
        let z_name = indexed_name(z_prefix, i);
        let layer = create_even_hopping_circuit(&even_name, number_qubits, hopping_parameter);
        let layer = layer.concat(
            create_odd_hopping_circuit(&odd_name, number_qubits, hopping_parameter),
        );
        let layer = layer.concat(
            create_magnetic_field_circuit(&z_name, number_qubits, magnetic_field),
        );
        c = c.concat(layer);
        i = i + 1;
    }
    c
}

/// The parameter names the evolution circuit expects, in layer order:
/// the even, odd and magnetic parameter of each layer in turn.
pub open spec fn evolution_names_view(
    iters: int,
    even_prefix: Seq<u8>,
    odd_prefix: Seq<u8>,
    z_prefix: Seq<u8>,
) -> Seq<Seq<u8>>
    decreases iters,
{
    if iters <= 0 {
        Seq::empty()
    } else {
        evolution_names_view(iters - 1, even_prefix, odd_prefix, z_prefix) + seq![
            even_prefix + spec_enc_u64(iters - 1),
            odd_prefix + spec_enc_u64(iters - 1),
            z_prefix + spec_enc_u64(iters - 1),
        ]
    }
}

/// Builds the positional parameter-name list for the evolution circuit.
pub fn evolution_parameter_names(
    iter_evolution: usize,
    even_prefix: &Vec<u8>,
    odd_prefix: &Vec<u8>,
    z_prefix: &Vec<u8>,
) -> (r: Vec<Vec<u8>>)
    ensures
        crate::program::names_view(r@) =~= evolution_names_view(
            iter_evolution as int,
            even_prefix@,
            odd_prefix@,
            z_prefix@,
        ),
{
    let mut r: Vec<Vec<u8>> = Vec::new();
    let mut i: usize = 0;
    while i < iter_evolution
        invariant
            i <= iter_evolution,
            crate::program::names_view(r@) =~= evolution_names_view(
                i as int,
                even_prefix@,
                odd_prefix@,
                z_prefix@,
            ),
        decreases iter_evolution - i,
    {
        r.push(indexed_name(even_prefix, i));
        r.push(indexed_name(odd_prefix, i));
        r.push(indexed_name(z_prefix, i));
        i = i + 1;
    }
    r
}

/// The half-adder main block: the sum into qubit 2, the carry into
/// qubit 3 by two controlled Hadamard-like rotations around a controlled
/// phase.
pub fn half_adder_main_block(quarter_turn: Fixed) -> (r: Circuit)
    requires
        quarter_turn.units != i64::MIN,
    ensures
        r@ =~= seq![
            SpecOp::CNOT { control: 0, target: 2 },
            SpecOp::CNOT { control: 1, target: 2 },
            SpecOp::RotateY {
                qubit: 3,
                theta: SpecExpr::Literal { value: quarter_turn.units as int },
            },
            SpecOp::CNOT { control: 0, target: 3 },
            SpecOp::RotateY {
                qubit: 3,
                theta: SpecExpr::Literal { value: -(quarter_turn.units as int) },
            },
            SpecOp::Hadamard { qubit: 3 },
            SpecOp::CNOT { control: 1, target: 3 },
            SpecOp::Hadamard { qubit: 3 },
            SpecOp::RotateY {
                qubit: 3,
                theta: SpecExpr::Literal { value: quarter_turn.units as int },
            },
            SpecOp::CNOT { control: 0, target: 3 },
            SpecOp::RotateY {
                qubit: 3,
                theta: SpecExpr::Literal { value: -(quarter_turn.units as int) },
            },
        ],
{
    let minus = Fixed { units: -quarter_turn.units };
    let mut c = Circuit::new();
    c.add_operation(Operation::CNOT { control: 0, target: 2 });
    c.add_operation(Operation::CNOT { control: 1, target: 2 });
    c.add_operation(Operation::RotateY { qubit: 3, theta: CalcExpr::Literal { value: quarter_turn } });
    c.add_operation(Operation::CNOT { control: 0, target: 3 });
    c.add_operation(Operation::RotateY { qubit: 3, theta: CalcExpr::Literal { value: minus } });
    c.add_operation(Operation::Hadamard { qubit: 3 });
    c.add_operation(Operation::CNOT { control: 1, target: 3 });
    c.add_operation(Operation::Hadamard { qubit: 3 });
    c.add_operation(Operation::RotateY { qubit: 3, theta: CalcExpr::Literal { value: quarter_turn } });
    c.add_operation(Operation::CNOT { control: 0, target: 3 });
    c.add_operation(Operation::RotateY { qubit: 3, theta: CalcExpr::Literal { value: minus } });
    c
}

/// The state-preparation circuit of the teleportation example: two
/// literal rotations of the qubit to be sent.
pub fn prep_psi(angle_thet: Fixed, angle_phi: Fixed) -> (r: Circuit)
    ensures
        r@ =~= seq![
            SpecOp::RotateY { qubit: 0, theta: SpecExpr::Literal { value: angle_thet.units as int } },
            SpecOp::RotateZ { qubit: 0, theta: SpecExpr::Literal { value: angle_phi.units as int } },
        ],
{
    let mut c = Circuit::new();
    c.add_operation(Operation::RotateY { qubit: 0, theta: CalcExpr::Literal { value: angle_thet } });
    c.add_operation(Operation::RotateZ { qubit: 0, theta: CalcExpr::Literal { value: angle_phi } });
    c
}

/// A complex register declaration followed by a state-vector readout
/// into it.
pub fn statevector_readout(name: Vec<u8>, dimension: usize) -> (r: Circuit)
    ensures
        r@ =~= seq![
            SpecOp::DefinitionComplex { name: name@, length: dimension as int, is_output: true },
            SpecOp::PragmaGetStateVector { readout: name@, circuit: Some(Seq::empty()) },
        ],
{
    let mut c = Circuit::new();
    let name2 = clone_bytes(&name);
    c.add_operation(Operation::DefinitionComplex { name, length: dimension, is_output: true });
    c.add_operation(
        Operation::PragmaGetStateVector { readout: name2, circuit: Some(Circuit::new()) },
    );
    c
}

/// The three-qubit state initialisation of the measurement example: a
/// flipped middle qubit entangled from a superposed first qubit, with a
/// phase on the first.
pub fn xbasis_state_init() -> (r: Circuit)
    ensures
        r@ =~= seq![
            SpecOp::PauliX { qubit: 1 },
            SpecOp::Hadamard { qubit: 0 },
            SpecOp::CNOT { control: 0, target: 1 },
            SpecOp::CNOT { control: 0, target: 2 },
            SpecOp::SGate { qubit: 0 },
        ],
{
    let mut c = Circuit::new();
    c.add_operation(Operation::PauliX { qubit: 1 });
    c.add_operation(Operation::Hadamard { qubit: 0 });
    c.add_operation(Operation::CNOT { control: 0, target: 1 });
    c.add_operation(Operation::CNOT { control: 0, target: 2 });
    c.add_operation(Operation::SGate { qubit: 0 });
    c
}

/// The conditional-correction part of the teleportation circuit: a
/// guarded flip and a guarded phase flip on the receiving qubit.
pub fn teleportation_corrections(register: &Vec<u8>) -> (r: Circuit)
    ensures
        r@ =~= seq![
            SpecOp::PragmaConditional {
                condition_register: register@,
                condition_index: 1,
                circuit: seq![SpecOp::PauliX { qubit: 2 }],
            },
            SpecOp::PragmaConditional {
                condition_register: register@,
                condition_index: 0,
                circuit: seq![SpecOp::PauliZ { qubit: 2 }],
            },
        ],
{
    let mut cond_x = Circuit::new();
    cond_x.add_operation(Operation::PauliX { qubit: 2 });
    let mut cond_z = Circuit::new();
    cond_z.add_operation(Operation::PauliZ { qubit: 2 });
    let mut c = Circuit::new();
    c.add_operation(
        Operation::PragmaConditional {
            condition_register: clone_bytes(register),
            condition_index: 1,
            circuit: cond_x,
        },
    );
    c.add_operation(
        Operation::PragmaConditional {
            condition_register: clone_bytes(register),
            condition_index: 0,
            circuit: cond_z,
        },
    );
    c
}

} // verus!
