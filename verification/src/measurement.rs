//! Pauli-Z product measurement and aggregation.
//!
//! A measurement declares named product terms (a register and the
//! readout indices whose parity is observed) and named linear
//! combinations of those terms.  Aggregation turns sampled bit rows into
//! one exact expectation value per term (parity 0 maps to +1, parity 1
//! to -1, averaged over the shots) and combines them linearly.  The
//! whole computation is a fixed finite sum: equal inputs give equal
//! results.

use vstd::prelude::*;

use crate::bytes::clone_bytes;
use crate::error::RoqoqoError;
use crate::error::SpecError;
use crate::fixed::abs_int;
use crate::fixed::div_trunc;
use crate::fixed::lemma_mul_abs_sign;
use crate::fixed::Fixed;
use crate::fixed::FIXED_SCALE;
use crate::registers::gather_bit_rows;
use crate::registers::gather_rows;
use crate::registers::results_view;
use crate::registers::rows_view;
use crate::registers::Registers;
use crate::registers::SpecRegisters;

verus! {

broadcast use vstd::seq::group_seq_axioms, vstd::std_specs::vec::group_vec_axioms;

/// One Pauli-Z product term: the readout register it is measured in and
/// the indices within each shot row whose parity is observed.
#[derive(Clone, Debug, PartialEq, Eq)]
pub struct PauliProductMask {
    pub readout: Vec<u8>,
    pub indices: Vec<usize>,
}

/// A named weighted sum over product-term expectations; each entry pairs
/// a product-term index with its coefficient.
#[derive(Clone, Debug, PartialEq, Eq)]
pub struct LinearCombination {
    pub name: Vec<u8>,
    pub terms: Vec<(usize, Fixed)>,
}

/// The declaration side of a Pauli-Z product measurement: the qubit
/// width, the product terms in declaration order, and the named linear
/// combinations over them.
#[derive(Clone, Debug, PartialEq, Eq)]
pub struct PauliZProductInput {
    pub number_qubits: usize,
    pub pauli_products: Vec<PauliProductMask>,
    pub linear_combinations: Vec<LinearCombination>,
}

/// View of a readout-index list.
pub open spec fn indices_view(s: Seq<usize>) -> Seq<int> {
    Seq::new(s.len(), |i: int| s[i] as int)
}

/// View of the product-term list.
pub open spec fn masks_view(s: Seq<PauliProductMask>) -> Seq<(Seq<u8>, Seq<int>)> {
    Seq::new(s.len(), |i: int| (s[i].readout@, indices_view(s[i].indices@)))
}

/// View of one combination's term list.
pub open spec fn terms_view(s: Seq<(usize, Fixed)>) -> Seq<(int, int)> {
    Seq::new(s.len(), |i: int| (s[i].0 as int, s[i].1.units as int))
}

/// View of the combination list.
pub open spec fn combos_view(s: Seq<LinearCombination>) -> Seq<(Seq<u8>, Seq<(int, int)>)> {
    Seq::new(s.len(), |i: int| (s[i].name@, terms_view(s[i].terms@)))
}

/// Mathematical mirror of `PauliZProductInput`.
pub struct SpecPZInput {
    pub number_qubits: int,
    pub products: Seq<(Seq<u8>, Seq<int>)>,
    pub combos: Seq<(Seq<u8>, Seq<(int, int)>)>,
}

impl View for PauliZProductInput {
    type V = SpecPZInput;

    open spec fn view(&self) -> SpecPZInput {
        SpecPZInput {
            number_qubits: self.number_qubits as int,
            products: masks_view(self.pauli_products@),
            combos: combos_view(self.linear_combinations@),
        }
    }
}

/// One combination's term list is well formed against `nproducts`
/// declared terms: every key references a declared term and no key
/// repeats.
pub open spec fn terms_wf(terms: Seq<(int, int)>, nproducts: int) -> bool {
    &&& forall|k: int| 0 <= k < terms.len() ==> 0 <= #[trigger] terms[k].0 < nproducts
    &&& forall|k1: int, k2: int|
        0 <= k1 < k2 < terms.len() ==> #[trigger] terms[k1].0 != #[trigger] terms[k2].0
}

/// The declaration invariant: every product term reads qubits below the
/// declared width, and every combination references declared terms.
pub open spec fn input_wf(v: SpecPZInput) -> bool {
    &&& forall|i: int, k: int|
        0 <= i < v.products.len() && 0 <= k < v.products[i].1.len() ==> 0 <= #[trigger] v.products[i].1[k]
            < v.number_qubits
    &&& forall|c: int|
        0 <= c < v.combos.len() ==> terms_wf(#[trigger] v.combos[c].1, v.products.len() as int)
}

/// Parity of the bits of `row` selected by `idxs`: `true` when an odd
/// number of them is set.
pub open spec fn parity(row: Seq<bool>, idxs: Seq<int>) -> bool
    decreases idxs.len(),
{
    if idxs.len() == 0 {
        false
    } else {
        (row[idxs[0]] != parity(row, idxs.drop_first()))
    }
}

/// The first selected position that does not fit in `row`, as the error
/// it raises; `None` when every selected position fits.
pub open spec fn row_oob_error(row: Seq<bool>, idxs: Seq<int>, register: Seq<u8>) -> Option<
    SpecError,
>
    decreases idxs.len(),
{
    if idxs.len() == 0 {
        None
    } else if !(0 <= idxs[0] < row.len()) {
        Some(SpecError::ReadoutIndexOutOfRange { register, index: idxs[0] })
    } else {
        row_oob_error(row, idxs.drop_first(), register)
    }
}

/// The first shot row that is too short for the selected positions, as
/// the error it raises; `None` when every row is long enough.
pub open spec fn rows_oob_error(rows: Seq<Seq<bool>>, idxs: Seq<int>, register: Seq<u8>) -> Option<
    SpecError,
>
    decreases rows.len(),
{
    if rows.len() == 0 {
        None
    } else {
        match row_oob_error(rows[0], idxs, register) {
            Some(e) => Some(e),
            None => rows_oob_error(rows.drop_first(), idxs, register),
        }
    }
}

/// Number of rows with odd parity.
pub open spec fn count_odd(rows: Seq<Seq<bool>>, idxs: Seq<int>) -> int
    decreases rows.len(),
{
    if rows.len() == 0 {
        0
    } else {
        count_odd(rows.drop_last(), idxs) + (if parity(rows[rows.len() - 1], idxs) {
            1int
        } else {
            0int
        })
    }
}

/// The estimated expectation of a product term from its sampled rows:
/// the mean of the per-shot values +1 (even parity) and -1 (odd parity),
/// in millionth units, truncated toward zero.
pub open spec fn spec_expectation(rows: Seq<Seq<bool>>, idxs: Seq<int>) -> int {
    div_trunc((rows.len() - 2 * count_odd(rows, idxs)) * (FIXED_SCALE as int), rows.len() as int)
}

/// Evaluation of one product term against the gathered backend results.
pub open spec fn spec_term(results: Seq<SpecRegisters>, mask: (Seq<u8>, Seq<int>)) -> Result<
    int,
    SpecError,
> {
    match gather_rows(results, mask.0) {
        None => Err(SpecError::MissingMeasurement { register: mask.0 }),
        Some(rows) => {
            if rows.len() == 0 {
                Err(SpecError::EmptySample { register: mask.0 })
            } else {
                match rows_oob_error(rows, mask.1, mask.0) {
                    Some(e) => Err(e),
                    None => Ok(spec_expectation(rows, mask.1)),
                }
            }
        },
    }
}

/// Evaluation of all product terms in declaration order, stopping at the
/// first failure.
pub open spec fn spec_expectations(results: Seq<SpecRegisters>, masks: Seq<(Seq<u8>, Seq<int>)>)
    -> Result<Seq<int>, SpecError>
    decreases masks.len(),
{
    if masks.len() == 0 {
        Ok(Seq::empty())
    } else {
        match spec_term(results, masks[0]) {
            Err(e) => Err(e),
            Ok(v) => match spec_expectations(results, masks.drop_first()) {
                Err(e) => Err(e),
                Ok(rest) => Ok(Seq::empty().push(v) + rest),
            },
        }
    }
}

/// One unfolding step of `spec_expectations` at an arbitrary offset.
pub proof fn lemma_expectations_step(
    results: Seq<SpecRegisters>,
    masks: Seq<(Seq<u8>, Seq<int>)>,
    i: int,
)
    requires
        0 <= i < masks.len(),
    ensures
        spec_expectations(results, masks.skip(i)) == match spec_term(results, masks[i]) {
            Err(e) => Err::<Seq<int>, SpecError>(e),
            Ok(v) => match spec_expectations(results, masks.skip(i + 1)) {
                Err(e) => Err::<Seq<int>, SpecError>(e),
                Ok(rest) => Ok::<Seq<int>, SpecError>(Seq::empty().push(v) + rest),
            },
        },
{
    assert(masks.skip(i)[0] == masks[i]);
    assert(masks.skip(i).drop_first() =~= masks.skip(i + 1));
}

/// The exact value of one linear combination over the term
/// expectations: the sum of each coefficient times its term's
/// expectation, each product truncated toward zero in millionth units.
pub open spec fn spec_combination(terms: Seq<(int, int)>, evs: Seq<int>) -> int
    decreases terms.len(),
{
    if terms.len() == 0 {
        0
    } else {
        div_trunc(terms[0].1 * evs[terms[0].0], FIXED_SCALE as int) + spec_combination(
            terms.drop_first(),
            evs,
        )
    }
}

/// One unfolding step of `spec_combination` at an arbitrary offset.
pub proof fn lemma_combination_step(terms: Seq<(int, int)>, evs: Seq<int>, i: int)
    requires
        0 <= i < terms.len(),
    ensures
        spec_combination(terms.skip(i), evs) == div_trunc(
            terms[i].1 * evs[terms[i].0],
            FIXED_SCALE as int,
        ) + spec_combination(terms.skip(i + 1), evs),
{
    assert(terms.skip(i)[0] == terms[i]);
    assert(terms.skip(i).drop_first() =~= terms.skip(i + 1));
}

/// Evaluation of all linear combinations in declaration order; a value
/// outside the representable range stops the evaluation.
pub open spec fn spec_outputs(combos: Seq<(Seq<u8>, Seq<(int, int)>)>, evs: Seq<int>) -> Result<
    Seq<(Seq<u8>, int)>,
    SpecError,
>
    decreases combos.len(),
{
    if combos.len() == 0 {
        Ok(Seq::empty())
    } else {
        let v = spec_combination(combos[0].1, evs);
        if !(i64::MIN <= v <= i64::MAX) {
            Err(SpecError::NumericOverflow)
        } else {
            match spec_outputs(combos.drop_first(), evs) {
                Err(e) => Err(e),
                Ok(rest) => Ok(Seq::empty().push((combos[0].0, v)) + rest),
            }
        }
    }
}

/// One unfolding step of `spec_outputs` at an arbitrary offset.
pub proof fn lemma_outputs_step(combos: Seq<(Seq<u8>, Seq<(int, int)>)>, evs: Seq<int>, i: int)
    requires
        0 <= i < combos.len(),
    ensures
        spec_outputs(combos.skip(i), evs) == ({
            let v = spec_combination(combos[i].1, evs);
            if !(i64::MIN <= v <= i64::MAX) {
                Err::<Seq<(Seq<u8>, int)>, SpecError>(SpecError::NumericOverflow)
            } else {
                match spec_outputs(combos.skip(i + 1), evs) {
                    Err(e) => Err::<Seq<(Seq<u8>, int)>, SpecError>(e),
                    Ok(rest) => Ok::<Seq<(Seq<u8>, int)>, SpecError>(
                        Seq::empty().push((combos[i].0, v)) + rest,
                    ),
                }
            }
        }),
{
    assert(combos.skip(i)[0] == combos[i]);
    assert(combos.skip(i).drop_first() =~= combos.skip(i + 1));
}

/// The whole aggregation: expectations for every declared product term,
/// then every declared linear combination, in declaration order.
pub open spec fn spec_evaluate(input: SpecPZInput, results: Seq<SpecRegisters>) -> Result<
    Seq<(Seq<u8>, int)>,
    SpecError,
> {
    match spec_expectations(results, input.products) {
        Err(e) => Err(e),
        Ok(evs) => spec_outputs(input.combos, evs),
    }
}

/// Deterministic aggregation: the aggregate is a function of the
/// declared terms, the declared combinations and the sampled rows alone,
/// so two aggregation calls over equal inputs return equal results.
pub proof fn lemma_aggregation_deterministic(
    a: SpecPZInput,
    b: SpecPZInput,
    ra: Seq<SpecRegisters>,
    rb: Seq<SpecRegisters>,
)
    requires
        a == b,
        ra == rb,
    ensures
        spec_evaluate(a, ra) == spec_evaluate(b, rb),
{
}

/// A product term whose register never appears in any backend result
/// makes the whole aggregation fail; no default value is returned.
pub proof fn lemma_missing_register_fails(input: SpecPZInput, results: Seq<SpecRegisters>)
    requires
        exists|k: int|
            0 <= k < input.products.len() && gather_rows(
                results,
                #[trigger] input.products[k].0,
            ) is None,
    ensures
        spec_evaluate(input, results) is Err,
{
    let k = choose|k: int|
        0 <= k < input.products.len() && gather_rows(results, #[trigger] input.products[k].0) is None;
    lemma_expectations_err(results, input.products, k);
}

/// Helper: a failing product term makes `spec_expectations` fail.
proof fn lemma_expectations_err(
    results: Seq<SpecRegisters>,
    masks: Seq<(Seq<u8>, Seq<int>)>,
    k: int,
)
    requires
        0 <= k < masks.len(),
        gather_rows(results, masks[k].0) is None,
    ensures
        spec_expectations(results, masks) is Err,
    decreases k,
{
    if k == 0 {
    } else {
        match spec_term(results, masks[0]) {
            Err(_) => {},
            Ok(_) => {
                assert(masks.drop_first()[k - 1] == masks[k]);
                lemma_expectations_err(results, masks.drop_first(), k - 1);
            },
        }
    }
}

impl PauliZProductInput {
    /// A declaration for circuits of the given qubit width, with no
    /// product terms and no combinations yet.
    pub fn new(number_qubits: usize) -> (r: PauliZProductInput)
        ensures
            r@.number_qubits == number_qubits,
            r@.products =~= Seq::<(Seq<u8>, Seq<int>)>::empty(),
            r@.combos =~= Seq::<(Seq<u8>, Seq<(int, int)>)>::empty(),
            input_wf(r@),
    {
        let r = PauliZProductInput {
            number_qubits,
            pauli_products: Vec::new(),
            linear_combinations: Vec::new(),
        };
        proof {
            assert(r@.products =~= Seq::<(Seq<u8>, Seq<int>)>::empty());
            assert(r@.combos =~= Seq::<(Seq<u8>, Seq<(int, int)>)>::empty());
        }
        r
    }

    /// Declares one Pauli-Z product term over `readout` and returns its
    /// index; terms are indexed by declaration order and never
    /// deduplicated.  Fails when a readout index reaches the declared
    /// qubit width, reporting the first such index; the declaration is
    /// then unchanged.
    pub fn add_pauliz_product(&mut self, readout: Vec<u8>, indices: Vec<usize>) -> (r: Result<
        usize,
        RoqoqoError,
    >)
        ensures
            match r {
                Ok(idx) => {
                    &&& idx == old(self)@.products.len()
                    &&& forall|k: int|
                        0 <= k < indices@.len() ==> (#[trigger] indices@[k] as int) < old(
                            self,
                        )@.number_qubits
                    &&& final(self)@.number_qubits == old(self)@.number_qubits
                    &&& final(self)@.products =~= old(self)@.products.push(
                        (readout@, indices_view(indices@)),
                    )
                    &&& final(self)@.combos == old(self)@.combos
                },
                Err(e) => {
                    &&& *final(self) == *old(self)
                    &&& exists|k: int|
                        0 <= k < indices@.len() && (#[trigger] indices@[k] as int) >= old(
                            self,
                        )@.number_qubits && (forall|j: int|
                            0 <= j < k ==> (#[trigger] indices@[j] as int) < old(
                                self,
                            )@.number_qubits) && e@ == (SpecError::QubitOutOfRange {
                            qubit: indices@[k] as int,
                            number_qubits: old(self)@.number_qubits,
                        })
                },
            },
            input_wf(old(self)@) ==> input_wf(final(self)@),
    {
        let mut k: usize = 0;
        while k < indices.len()
            invariant
                k <= indices.len(),
                forall|j: int| 0 <= j < k ==> (#[trigger] indices@[j] as int) < self.number_qubits,
            decreases indices.len() - k,
        {
            if indices[k] >= self.number_qubits {
                return Err(
                    RoqoqoError::QubitOutOfRange {
                        qubit: indices[k],
                        number_qubits: self.number_qubits,
                    },
                );
            }
            k = k + 1;
        }
        let idx = self.pauli_products.len();
        let ghost old_products = masks_view(self.pauli_products@);
        let ghost old_wf = input_wf((*self)@);
        self.pauli_products.push(PauliProductMask { readout, indices });
        proof {
            assert(masks_view(self.pauli_products@) =~= old_products.push(
                (readout@, indices_view(indices@)),
            ));
            if old_wf {
                let ov = (*old(self))@;
                let nv = (*self)@;
                assert forall|i: int, k: int|
                    0 <= i < nv.products.len() && 0 <= k < nv.products[i].1.len() implies 0
                    <= #[trigger] nv.products[i].1[k] < nv.number_qubits by {
                    if i < ov.products.len() {
                        assert(nv.products[i] == ov.products[i]);
                    } else {
                        assert(nv.products[i].1 == indices_view(indices@));
                        assert(nv.products[i].1[k] == indices@[k] as int);
                    }
                }
                assert forall|c: int| 0 <= c < nv.combos.len() implies terms_wf(
                    #[trigger] nv.combos[c].1,
                    nv.products.len() as int,
                ) by {
                    assert(nv.combos[c] == ov.combos[c]);
                    assert(terms_wf(ov.combos[c].1, ov.products.len() as int));
                }
                assert(input_wf(nv));
            }
        }
        Ok(idx)
    }

    /// Declares one named linear combination; each entry pairs a
    /// previously declared product-term index with its coefficient.
    /// Fails when an entry references an undeclared term or repeats a
    /// term index, reporting the first offending key; the declaration is
    /// then unchanged.
    pub fn add_linear_exp_val(&mut self, name: Vec<u8>, terms: Vec<(usize, Fixed)>) -> (r: Result<
        (),
        RoqoqoError,
    >)
        ensures
            match r {
                Ok(_) => {
                    &&& terms_wf(terms_view(terms@), old(self)@.products.len() as int)
                    &&& final(self)@.number_qubits == old(self)@.number_qubits
                    &&& final(self)@.products == old(self)@.products
                    &&& final(self)@.combos =~= old(self)@.combos.push(
                        (name@, terms_view(terms@)),
                    )
                },
                Err(e) => {
                    &&& *final(self) == *old(self)
                    &&& !terms_wf(terms_view(terms@), old(self)@.products.len() as int)
                    &&& exists|k: int|
                        0 <= k < terms@.len() && e@ == (SpecError::MalformedSpec {
                            term: #[trigger] terms@[k].0 as int,
                        }) && ((terms@[k].0 as int) >= old(self)@.products.len() || exists|j: int|
                            0 <= j < k && #[trigger] terms@[j].0 == terms@[k].0)
                },
            },
            input_wf(old(self)@) ==> input_wf(final(self)@),
    {
        let nproducts = self.pauli_products.len();
        proof {
            assert(masks_view(self.pauli_products@).len() == self.pauli_products@.len());
        }
        let mut k: usize = 0;
        while k < terms.len()
            invariant
                k <= terms.len(),
                nproducts == self.pauli_products@.len(),
                forall|j: int| 0 <= j < k ==> 0 <= (#[trigger] terms@[j].0 as int) < nproducts,
                forall|j1: int, j2: int|
                    0 <= j1 < j2 < k ==> #[trigger] terms@[j1].0 != #[trigger] terms@[j2].0,
            decreases terms.len() - k,
        {
            if terms[k].0 >= nproducts {
                proof {
                    let tv = terms_view(terms@);
                    assert(tv[k as int].0 == terms@[k as int].0 as int);
                    assert(!terms_wf(tv, (*old(self))@.products.len() as int));
                }
                return Err(RoqoqoError::MalformedSpec { term: terms[k].0 });
            }
            let mut j: usize = 0;
            while j < k
                invariant
                    j <= k,
                    k < terms.len(),
                    forall|m: int| 0 <= m < j ==> #[trigger] terms@[m].0 != terms@[k as int].0,
                decreases k - j,
            {
                if terms[j].0 == terms[k].0 {
                    proof {
                        let tv = terms_view(terms@);
                        assert(tv[j as int].0 == terms@[j as int].0 as int);
                        assert(tv[k as int].0 == terms@[k as int].0 as int);
                        assert(!terms_wf(tv, (*old(self))@.products.len() as int));
                    }
                    return Err(RoqoqoError::MalformedSpec { term: terms[k].0 });
                }
                j = j + 1;
            }
            k = k + 1;
        }
        let ghost old_combos = combos_view(self.linear_combinations@);
        let ghost old_wf = input_wf((*self)@);
        proof {
            let tv = terms_view(terms@);
            assert forall|j: int| 0 <= j < tv.len() implies 0 <= #[trigger] tv[j].0
                < nproducts by {
                assert(tv[j].0 == terms@[j].0 as int);
            }
            assert forall|j1: int, j2: int| 0 <= j1 < j2 < tv.len() implies #[trigger] tv[j1].0
                != #[trigger] tv[j2].0 by {
                assert(tv[j1].0 == terms@[j1].0 as int);
                assert(tv[j2].0 == terms@[j2].0 as int);
            }
            assert(terms_wf(tv, nproducts as int));
        }
        self.linear_combinations.push(LinearCombination { name, terms });
        proof {
            assert(combos_view(self.linear_combinations@) =~= old_combos.push(
                (name@, terms_view(terms@)),
            ));
            if old_wf {
                let ov = (*old(self))@;
                let nv = (*self)@;
                assert forall|c: int| 0 <= c < nv.combos.len() implies terms_wf(
                    #[trigger] nv.combos[c].1,
                    nv.products.len() as int,
                ) by {
                    if c < ov.combos.len() {
                        assert(nv.combos[c] == ov.combos[c]);
                    } else {
                        assert(nv.combos[c].1 == terms_view(terms@));
                    }
                }
                assert(input_wf(nv));
            }
        }
        Ok(())
    }
}

/// View of the term-expectation list.
pub open spec fn evs_view(s: Seq<Fixed>) -> Seq<int> {
    Seq::new(s.len(), |i: int| s[i].units as int)
}

/// View of the named output list.
pub open spec fn outputs_view(s: Seq<(Vec<u8>, Fixed)>) -> Seq<(Seq<u8>, int)> {
    Seq::new(s.len(), |i: int| (s[i].0@, s[i].1.units as int))
}

/// One unfolding step of `parity` and `row_oob_error` at an arbitrary
/// offset.
proof fn lemma_row_step(row: Seq<bool>, idxs: Seq<int>, register: Seq<u8>, k: int)
    requires
        0 <= k < idxs.len(),
    ensures
        parity(row, idxs.skip(k)) == ((row[idxs[k]]) != parity(row, idxs.skip(k + 1))),
        row_oob_error(row, idxs.skip(k), register) == (if !(0 <= idxs[k] < row.len()) {
            Some(SpecError::ReadoutIndexOutOfRange { register, index: idxs[k] })
        } else {
            row_oob_error(row, idxs.skip(k + 1), register)
        }),
{
    assert(idxs.skip(k)[0] == idxs[k]);
    assert(idxs.skip(k).drop_first() =~= idxs.skip(k + 1));
}

/// One unfolding step of `rows_oob_error` and `count_odd` at an
/// arbitrary offset.
proof fn lemma_rows_step(rows: Seq<Seq<bool>>, idxs: Seq<int>, register: Seq<u8>, i: int)
    requires
        0 <= i < rows.len(),
    ensures
        rows_oob_error(rows.skip(i), idxs, register) == (match row_oob_error(
            rows[i],
            idxs,
            register,
        ) {
            Some(e) => Some(e),
            None => rows_oob_error(rows.skip(i + 1), idxs, register),
        }),
        count_odd(rows.take(i + 1), idxs) == count_odd(rows.take(i), idxs) + (if parity(
            rows[i],
            idxs,
        ) {
            1int
        } else {
            0int
        }),
{
    assert(rows.skip(i)[0] == rows[i]);
    assert(rows.skip(i).drop_first() =~= rows.skip(i + 1));
    assert(rows.take(i + 1).drop_last() =~= rows.take(i));
    assert(rows.take(i + 1)[i] == rows[i]);
}

/// Parity of the selected bits of one shot row, or the first selected
/// position that does not fit in the row.
fn row_parity(row: &Vec<bool>, idxs: &Vec<usize>, register: &Vec<u8>) -> (r: Result<
    bool,
    RoqoqoError,
>)
    ensures
        match r {
            Ok(p) => row_oob_error(row@, indices_view(idxs@), register@) is None && p == parity(
                row@,
                indices_view(idxs@),
            ),
            Err(e) => row_oob_error(row@, indices_view(idxs@), register@) == Some(e@),
        },
{
    let ghost iv = indices_view(idxs@);
    let mut acc = false;
    let mut k: usize = 0;
    proof {
        assert(iv.skip(0) =~= iv);
    }
    while k < idxs.len()
        invariant
            k <= idxs.len(),
            iv == indices_view(idxs@),
            iv.len() == idxs@.len(),
            row_oob_error(row@, iv, register@) == row_oob_error(row@, iv.skip(k as int), register@),
            parity(row@, iv) == (acc != parity(row@, iv.skip(k as int))),
        decreases idxs.len() - k,
    {
        proof {
            lemma_row_step(row@, iv, register@, k as int);
            assert(iv[k as int] == idxs@[k as int] as int);
        }
        let idx = idxs[k];
        if idx >= row.len() {
            return Err(
                RoqoqoError::ReadoutIndexOutOfRange { register: clone_bytes(register), index: idx },
            );
        }
        let bit = row[idx];
        acc = acc != bit;
        k = k + 1;
    }
    proof {
        assert(iv.skip(k as int).len() == 0);
    }
    Ok(acc)
}

/// The estimated expectation of one product term from its sampled rows:
/// the mean over the shots of +1 for even parity and -1 for odd parity,
/// exact in millionth units and truncated toward zero.  Fails when there
/// are no shots at all or when a row is too short for a selected
/// position.
pub fn expectation_of_rows(rows: &Vec<Vec<bool>>, idxs: &Vec<usize>, register: &Vec<u8>) -> (r:
    Result<Fixed, RoqoqoError>)
    ensures
        match r {
            Ok(f) => {
                &&& rows@.len() > 0
                &&& rows_oob_error(rows_view(rows@), indices_view(idxs@), register@) is None
                &&& f.units as int == spec_expectation(rows_view(rows@), indices_view(idxs@))
                &&& -FIXED_SCALE <= f.units <= FIXED_SCALE
            },
            Err(e) => (rows@.len() == 0 && e@ == (SpecError::EmptySample { register: register@ }))
                || (rows@.len() > 0 && rows_oob_error(
                rows_view(rows@),
                indices_view(idxs@),
                register@,
            ) == Some(e@)),
        },
{
    let ghost rv = rows_view(rows@);
    let ghost iv = indices_view(idxs@);
    let n = rows.len();
    if n == 0 {
        return Err(RoqoqoError::EmptySample { register: clone_bytes(register) });
    }
    let mut odd: usize = 0;
    let mut i: usize = 0;
    proof {
        assert(rv.skip(0) =~= rv);
        assert(rv.take(0int) =~= Seq::<Seq<bool>>::empty());
    }
    while i < n
        invariant
            i <= n,
            n == rows.len(),
            rv == rows_view(rows@),
            iv == indices_view(idxs@),
            rv.len() == rows@.len(),
            odd <= i,
            rows_oob_error(rv, iv, register@) == rows_oob_error(rv.skip(i as int), iv, register@),
            odd == count_odd(rv.take(i as int), iv),
        decreases n - i,
    {
        proof {
            lemma_rows_step(rv, iv, register@, i as int);
            assert(rv[i as int] == rows@[i as int]@);
        }
        match row_parity(&rows[i], idxs, register) {
            Ok(p) => {
                if p {
                    odd = odd + 1;
                }
            },
            Err(e) => {
                return Err(e);
            },
        }
        i = i + 1;
    }
    proof {
        assert(rv.skip(i as int).len() == 0);
        assert(rv.take(i as int) =~= rv);
    }
    let even = n - odd;
    let neg = even < odd;
    let mag: usize = if neg {
        odd - even
    } else {
        even - odd
    };
    let numer: u128 = (mag as u128) * (FIXED_SCALE as u128);
    proof {
        vstd::arithmetic::mul::lemma_mul_upper_bound(
            mag as int,
            0xffff_ffff_ffff_ffff,
            FIXED_SCALE as int,
            FIXED_SCALE as int,
        );
    }
    let q: u128 = numer / (n as u128);
    let ghost diff = n - 2 * count_odd(rv, iv);
    proof {
        assert(abs_int(diff) == mag as int);
        vstd::arithmetic::mul::lemma_mul_inequality(mag as int, n as int, FIXED_SCALE as int);
        crate::fixed::lemma_div_le_factor(numer as int, FIXED_SCALE as int, n as int);
        lemma_mul_abs_sign(diff, FIXED_SCALE as int);
        assert(abs_int(diff * (FIXED_SCALE as int)) == (mag as int) * (FIXED_SCALE as int));
        assert(q as int == div_trunc(diff * (FIXED_SCALE as int), n as int) || q as int == -(
        div_trunc(diff * (FIXED_SCALE as int), n as int)));
    }
    if neg {
        proof {
            assert(diff < 0);
            assert(spec_expectation(rv, iv) == -(q as int));
        }
        Ok(Fixed { units: -(q as i64) })
    } else {
        proof {
            assert(diff >= 0);
            assert(spec_expectation(rv, iv) == q as int);
        }
        Ok(Fixed { units: q as i64 })
    }
}

/// The exact value of one linear combination over bounded term
/// expectations; fails only when the mathematical sum leaves the
/// representable range.
pub fn combine_terms(terms: &Vec<(usize, Fixed)>, evs: &Vec<Fixed>) -> (r: Result<
    Fixed,
    RoqoqoError,
>)
    requires
        forall|k: int| 0 <= k < terms@.len() ==> (#[trigger] terms@[k].0 as int) < evs@.len(),
        forall|j: int|
            0 <= j < evs@.len() ==> -FIXED_SCALE <= (#[trigger] evs@[j]).units <= FIXED_SCALE,
    ensures
        match r {
            Ok(f) => spec_combination(terms_view(terms@), evs_view(evs@)) == f.units as int,
            Err(e) => e@ == SpecError::NumericOverflow && !(i64::MIN <= spec_combination(
                terms_view(terms@),
                evs_view(evs@),
            ) <= i64::MAX),
        },
{
    let ghost tv = terms_view(terms@);
    let ghost ev = evs_view(evs@);
    let mut acc: i128 = 0;
    let mut k: usize = 0;
    proof {
        assert(tv.skip(0) =~= tv);
    }
    while k < terms.len()
        invariant
            k <= terms.len(),
            tv == terms_view(terms@),
            ev == evs_view(evs@),
            tv.len() == terms@.len(),
            ev.len() == evs@.len(),
            forall|m: int| 0 <= m < terms@.len() ==> (#[trigger] terms@[m].0 as int) < evs@.len(),
            forall|j: int|
                0 <= j < evs@.len() ==> -FIXED_SCALE <= (#[trigger] evs@[j]).units <= FIXED_SCALE,
            spec_combination(tv, ev) == acc + spec_combination(tv.skip(k as int), ev),
            -((k as int) * 0x8000_0000_0000_0000) <= acc as int <= (k as int)
                * 0x8000_0000_0000_0000,
        decreases terms.len() - k,
    {
        proof {
            lemma_combination_step(tv, ev, k as int);
            assert(tv[k as int] == (terms@[k as int].0 as int, terms@[k as int].1.units as int));
        }
        let ti = terms[k].0;
        let cf = terms[k].1;
        let e = evs[ti];
        proof {
            assert(ev[ti as int] == evs@[ti as int].units as int);
        }
        let neg: bool = (cf.units < 0) != (e.units < 0);
        let mc: u64 = if cf.units < 0 {
            (-(cf.units as i128)) as u64
        } else {
            cf.units as u64
        };
        let me: u64 = if e.units < 0 {
            (-(e.units as i128)) as u64
        } else {
            e.units as u64
        };
        proof {
            vstd::arithmetic::mul::lemma_mul_upper_bound(
                mc as int,
                0x8000_0000_0000_0000,
                me as int,
                FIXED_SCALE as int,
            );
        }
        let prod: u128 = (mc as u128) * (me as u128);
        let q: u128 = prod / (FIXED_SCALE as u128);
        proof {
            assert(me as int <= FIXED_SCALE as int);
            vstd::arithmetic::mul::lemma_mul_inequality(
                me as int,
                FIXED_SCALE as int,
                mc as int,
            );
            assert(prod as int == (mc as int) * (me as int));
            assert((me as int) * (mc as int) <= (FIXED_SCALE as int) * (mc as int));
            assert(prod as int <= (mc as int) * (FIXED_SCALE as int)) by {
                vstd::arithmetic::mul::lemma_mul_is_commutative(me as int, mc as int);
                vstd::arithmetic::mul::lemma_mul_is_commutative(FIXED_SCALE as int, mc as int);
            }
            crate::fixed::lemma_div_le_factor(prod as int, mc as int, FIXED_SCALE as int);
            lemma_mul_abs_sign(cf.units as int, e.units as int);
            assert(abs_int(cf.units as int * e.units as int) == (mc as int) * (me as int));
        }
        let contr: i128 = if neg {
            -(q as i128)
        } else {
            q as i128
        };
        proof {
            assert(contr as int == div_trunc(
                cf.units as int * e.units as int,
                FIXED_SCALE as int,
            ));
            assert(-0x8000_0000_0000_0000 <= contr as int <= 0x8000_0000_0000_0000);
            vstd::arithmetic::mul::lemma_mul_inequality(
                k as int + 1,
                0xffff_ffff_ffff_ffff,
                0x8000_0000_0000_0000,
            );
        }
        acc = acc + contr;
        k = k + 1;
    }
    proof {
        assert(tv.skip(k as int).len() == 0);
        assert(spec_combination(tv, ev) == acc as int);
    }
    if acc >= -0x8000_0000_0000_0000i128 && acc <= 0x7fff_ffff_ffff_ffffi128 {
        Ok(Fixed { units: acc as i64 })
    } else {
        Err(RoqoqoError::NumericOverflow)
    }
}

impl PauliZProductInput {
    /// Aggregates the backend results of one program evaluation: one
    /// exact expectation per declared product term, then one exact value
    /// per declared linear combination, in declaration order, stopping
    /// at the first failure.
    pub fn evaluate(&self, results: &Vec<Registers>) -> (r: Result<
        Vec<(Vec<u8>, Fixed)>,
        RoqoqoError,
    >)
        requires
            input_wf(self@),
        ensures
            match r {
                Ok(out) => spec_evaluate(self@, results_view(results@)) == Ok::<
                    Seq<(Seq<u8>, int)>,
                    SpecError,
                >(outputs_view(out@)),
                Err(e) => spec_evaluate(self@, results_view(results@)) == Err::<
                    Seq<(Seq<u8>, int)>,
                    SpecError,
                >(e@),
            },
    {
        let ghost rv = results_view(results@);
        let ghost mv = masks_view(self.pauli_products@);
        let mut evs: Vec<Fixed> = Vec::new();
        let mut i: usize = 0;
        proof {
            assert(mv.skip(0) =~= mv);
            assert(evs_view(evs@) =~= Seq::<int>::empty());
        }
        while i < self.pauli_products.len()
            invariant
                i <= self.pauli_products.len(),
                rv == results_view(results@),
                mv == masks_view(self.pauli_products@),
                mv.len() == self.pauli_products@.len(),
                evs@.len() == i,
                forall|j: int|
                    0 <= j < evs@.len() ==> -FIXED_SCALE <= (#[trigger] evs@[j]).units
                        <= FIXED_SCALE,
                match spec_expectations(rv, mv.skip(i as int)) {
                    Ok(rest) => spec_expectations(rv, mv) == Ok::<Seq<int>, SpecError>(
                        evs_view(evs@) + rest,
                    ),
                    Err(e) => spec_expectations(rv, mv) == Err::<Seq<int>, SpecError>(e),
                },
            decreases self.pauli_products.len() - i,
        {
            proof {
                lemma_expectations_step(rv, mv, i as int);
                assert(mv[i as int] == (
                    self.pauli_products@[i as int].readout@,
                    indices_view(self.pauli_products@[i as int].indices@),
                ));
            }
            let mask = &self.pauli_products[i];
            match gather_bit_rows(results, &mask.readout) {
                None => {
                    return Err(
                        RoqoqoError::MissingMeasurement { register: clone_bytes(&mask.readout) },
                    );
                },
                Some(rows) => {
                    match expectation_of_rows(&rows, &mask.indices, &mask.readout) {
                        Ok(f) => {
                            let ghost evs_before = evs_view(evs@);
                            evs.push(f);
                            proof {
                                assert(evs_view(evs@) =~= evs_before.push(f.units as int));
                                match spec_expectations(rv, mv.skip(i + 1)) {
                                    Ok(rest) => {
                                        assert(evs_before + (Seq::empty().push(f.units as int)
                                            + rest) =~= evs_view(evs@) + rest);
                                    },
                                    Err(_) => {},
                                }
                            }
                        },
                        Err(e) => {
                            return Err(e);
                        },
                    }
                },
            }
            i = i + 1;
        }
        proof {
            assert(mv.skip(i as int).len() == 0);
            assert(evs_view(evs@) + Seq::<int>::empty() =~= evs_view(evs@));
            assert(spec_expectations(rv, mv) == Ok::<Seq<int>, SpecError>(evs_view(evs@)));
        }
        let ghost cv = combos_view(self.linear_combinations@);
        let ghost ev = evs_view(evs@);
        let mut out: Vec<(Vec<u8>, Fixed)> = Vec::new();
        let mut ci: usize = 0;
        proof {
            assert(cv.skip(0) =~= cv);
            assert(outputs_view(out@) =~= Seq::<(Seq<u8>, int)>::empty());
        }
        while ci < self.linear_combinations.len()
            invariant
                ci <= self.linear_combinations.len(),
                rv == results_view(results@),
                mv == masks_view(self.pauli_products@),
                cv == combos_view(self.linear_combinations@),
                cv.len() == self.linear_combinations@.len(),
                ev == evs_view(evs@),
                evs@.len() == self.pauli_products@.len(),
                mv.len() == self.pauli_products@.len(),
                spec_expectations(rv, mv) == Ok::<Seq<int>, SpecError>(ev),
                input_wf(self@),
                forall|j: int|
                    0 <= j < evs@.len() ==> -FIXED_SCALE <= (#[trigger] evs@[j]).units
                        <= FIXED_SCALE,
                match spec_outputs(cv.skip(ci as int), ev) {
                    Ok(rest) => spec_outputs(cv, ev) == Ok::<Seq<(Seq<u8>, int)>, SpecError>(
                        outputs_view(out@) + rest,
                    ),
                    Err(e) => spec_outputs(cv, ev) == Err::<Seq<(Seq<u8>, int)>, SpecError>(e),
                },
            decreases self.linear_combinations.len() - ci,
        {
            proof {
                lemma_outputs_step(cv, ev, ci as int);
                assert(cv[ci as int] == (
                    self.linear_combinations@[ci as int].name@,
                    terms_view(self.linear_combinations@[ci as int].terms@),
                ));
                assert(terms_wf(cv[ci as int].1, self@.products.len() as int));
                assert forall|m: int|
                    0 <= m < self.linear_combinations@[ci as int].terms@.len() implies (
                #[trigger] self.linear_combinations@[ci as int].terms@[m].0 as int)
                    < evs@.len() by {
                    assert(cv[ci as int].1[m].0 == self.linear_combinations@[ci as int].terms@[m].0
                        as int);
                }
            }
            let combo = &self.linear_combinations[ci];
            match combine_terms(&combo.terms, &evs) {
                Ok(f) => {
                    let ghost out_before = outputs_view(out@);
                    out.push((clone_bytes(&combo.name), f));
                    proof {
                        assert(outputs_view(out@) =~= out_before.push(
                            (combo.name@, f.units as int),
                        ));
                        match spec_outputs(cv.skip(ci + 1), ev) {
                            Ok(rest) => {
                                assert(out_before + (Seq::empty().push(
                                    (cv[ci as int].0, f.units as int),
                                ) + rest) =~= outputs_view(out@) + rest);
                            },
                            Err(_) => {},
                        }
                    }
                },
                Err(e) => {
                    return Err(e);
                },
            }
            ci = ci + 1;
        }
        proof {
            assert(cv.skip(ci as int).len() == 0);
            assert(outputs_view(out@) + Seq::<(Seq<u8>, int)>::empty() =~= outputs_view(out@));
        }
        Ok(out)
    }
}

} // verus!
