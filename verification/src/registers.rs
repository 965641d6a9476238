//! Backend result registers.
//!
//! A backend run returns three mappings from register name to sampled
//! data: per-shot bit rows, per-shot real rows, and complex amplitude
//! rows.  The library reads these results; it never mutates them.  When
//! one program runs several circuits, rows for the same register name
//! are gathered across the runs in execution order.

use vstd::prelude::*;

use crate::bytes::bytes_eq;
use crate::circuit::Complexf;
use crate::fixed::Fixed;

verus! {

broadcast use vstd::seq::group_seq_axioms, vstd::std_specs::vec::group_vec_axioms;

/// Per-shot bit rows for one named register.
#[derive(Clone, Debug, PartialEq, Eq)]
pub struct BitRegister {
    pub name: Vec<u8>,
    pub shots: Vec<Vec<bool>>,
}

/// Per-shot real-number rows for one named register.
#[derive(Clone, Debug, PartialEq, Eq)]
pub struct FloatRegister {
    pub name: Vec<u8>,
    pub values: Vec<Vec<Fixed>>,
}

/// Complex amplitude rows for one named register.
#[derive(Clone, Debug, PartialEq, Eq)]
pub struct ComplexRegister {
    pub name: Vec<u8>,
    pub values: Vec<Vec<Complexf>>,
}

/// Everything one backend run hands back.
#[derive(Clone, Debug, PartialEq, Eq)]
pub struct Registers {
    pub bit_registers: Vec<BitRegister>,
    pub float_registers: Vec<FloatRegister>,
    pub complex_registers: Vec<ComplexRegister>,
}

/// Mathematical mirror of `Registers`; only the bit registers carry a
/// full view because only they feed aggregation.
pub struct SpecRegisters {
    pub bit: Seq<(Seq<u8>, Seq<Seq<bool>>)>,
}

/// View of per-shot bit rows.
pub open spec fn rows_view(rows: Seq<Vec<bool>>) -> Seq<Seq<bool>> {
    Seq::new(rows.len(), |i: int| rows[i]@)
}

/// View of a bit-register list.
pub open spec fn bit_registers_view(regs: Seq<BitRegister>) -> Seq<(Seq<u8>, Seq<Seq<bool>>)> {
    Seq::new(regs.len(), |i: int| (regs[i].name@, rows_view(regs[i].shots@)))
}

impl View for Registers {
    type V = SpecRegisters;

    open spec fn view(&self) -> SpecRegisters {
        SpecRegisters { bit: bit_registers_view(self.bit_registers@) }
    }
}

/// View of a list of backend results.
pub open spec fn results_view(results: Seq<Registers>) -> Seq<SpecRegisters> {
    Seq::new(results.len(), |i: int| results[i]@)
}

impl Registers {
    /// A result with no registers at all.
    pub fn new() -> (r: Registers)
        ensures
            r@.bit =~= Seq::<(Seq<u8>, Seq<Seq<bool>>)>::empty(),
    {
        Registers {
            bit_registers: Vec::new(),
            float_registers: Vec::new(),
            complex_registers: Vec::new(),
        }
    }
}

/// First-match lookup of a register name in one result.
pub open spec fn lookup_bit(regs: Seq<(Seq<u8>, Seq<Seq<bool>>)>, name: Seq<u8>) -> Option<
    Seq<Seq<bool>>,
>
    decreases regs.len(),
{
    if regs.len() == 0 {
        None
    } else if regs[0].0 == name {
        Some(regs[0].1)
    } else {
        lookup_bit(regs.drop_first(), name)
    }
}

/// Rows for a register name gathered across several backend results, in
/// execution order; `None` when no result mentions the name.
pub open spec fn gather_rows(results: Seq<SpecRegisters>, name: Seq<u8>) -> Option<Seq<Seq<bool>>>
    decreases results.len(),
{
    if results.len() == 0 {
        None
    } else {
        let head = lookup_bit(results[0].bit, name);
        let rest = gather_rows(results.drop_first(), name);
        match (head, rest) {
            (None, r) => r,
            (Some(h), None) => Some(h),
            (Some(h), Some(r)) => Some(h + r),
        }
    }
}

/// One unfolding step of `gather_rows` at an arbitrary offset.
pub proof fn lemma_gather_rows_step(results: Seq<SpecRegisters>, name: Seq<u8>, i: int)
    requires
        0 <= i < results.len(),
    ensures
        gather_rows(results.skip(i), name) == match (
            lookup_bit(results[i].bit, name),
            gather_rows(results.skip(i + 1), name),
        ) {
            (None, r) => r,
            (Some(h), None) => Some(h),
            (Some(h), Some(r)) => Some(h + r),
        },
{
    assert(results.skip(i)[0] == results[i]);
    assert(results.skip(i).drop_first() =~= results.skip(i + 1));
}

/// A fresh copy of one shot row.
fn clone_row(v: &Vec<bool>) -> (r: Vec<bool>)
    ensures
        r@ == v@,
{
    let r = v.clone();
    proof {
        assert(r@ =~= v@);
    }
    r
}

/// Appends copies of all rows of `src` to `out`.
fn append_rows(out: &mut Vec<Vec<bool>>, src: &Vec<Vec<bool>>)
    ensures
        rows_view(final(out)@) =~= rows_view(old(out)@) + rows_view(src@),
{
    let mut i: usize = 0;
    while i < src.len()
        invariant
            i <= src.len(),
            rows_view(out@) =~= rows_view(old(out)@) + rows_view(src@).take(i as int),
        decreases src.len() - i,
    {
        let ghost before = out@;
        out.push(clone_row(&src[i]));
        proof {
            assert(rows_view(out@) =~= rows_view(before).push(src@[i as int]@));
        }
        i = i + 1;
    }
}

/// Looks one register name up in one backend result.
fn find_bit_register<'a>(regs: &'a Vec<BitRegister>, name: &Vec<u8>) -> (r: Option<
    &'a Vec<Vec<bool>>,
>)
    ensures
        match r {
            Some(rows) => lookup_bit(bit_registers_view(regs@), name@) == Some(rows_view(rows@)),
            None => lookup_bit(bit_registers_view(regs@), name@) is None,
        },
{
    let ghost vs = bit_registers_view(regs@);
    let mut i: usize = 0;
    proof {
        assert(vs.skip(0) =~= vs);
    }
    while i < regs.len()
        invariant
            i <= regs.len(),
            vs == bit_registers_view(regs@),
            vs.len() == regs@.len(),
            lookup_bit(vs, name@) == lookup_bit(vs.skip(i as int), name@),
        decreases regs.len() - i,
    {
        proof {
            assert(vs.skip(i as int)[0] == vs[i as int]);
            assert(vs.skip(i as int).drop_first() =~= vs.skip(i + 1));
        }
        if bytes_eq(&regs[i].name, name) {
            return Some(&regs[i].shots);
        }
        i = i + 1;
    }
    proof {
        assert(vs.skip(i as int).len() == 0);
    }
    None
}

/// Gathers all rows recorded for one register name across the backend
/// results, in execution order; `None` when no result mentions the name.
pub fn gather_bit_rows(results: &Vec<Registers>, name: &Vec<u8>) -> (r: Option<Vec<Vec<bool>>>)
    ensures
        match r {
            Some(rows) => gather_rows(results_view(results@), name@) == Some(rows_view(rows@)),
            None => gather_rows(results_view(results@), name@) is None,
        },
{
    let ghost vs = results_view(results@);
    let mut out: Vec<Vec<bool>> = Vec::new();
    let mut found = false;
    let mut i: usize = 0;
    proof {
        assert(vs.skip(0) =~= vs);
    }
    while i < results.len()
        invariant
            i <= results.len(),
            vs == results_view(results@),
            vs.len() == results@.len(),
            !found ==> out@.len() == 0,
            match gather_rows(vs.skip(i as int), name@) {
                Some(rest) => gather_rows(vs, name@) == (if found {
                    Some(rows_view(out@) + rest)
                } else {
                    Some(rest)
                }),
                None => gather_rows(vs, name@) == (if found {
                    Some(rows_view(out@))
                } else {
                    None::<Seq<Seq<bool>>>
                }),
            },
        decreases results.len() - i,
    {
        proof {
            lemma_gather_rows_step(vs, name@, i as int);
            assert(vs[i as int] == results@[i as int]@);
        }
        match find_bit_register(&results[i].bit_registers, name) {
            Some(rows) => {
                let ghost out_before = rows_view(out@);
                append_rows(&mut out, rows);
                found = true;
                proof {
                    match gather_rows(vs.skip(i + 1), name@) {
                        Some(rest) => {
                            assert((out_before + rows_view(rows@)) + rest =~= out_before + (
                            rows_view(rows@) + rest));
                        },
                        None => {},
                    }
                }
            },
            None => {},
        }
        i = i + 1;
    }
    proof {
        assert(vs.skip(i as int).len() == 0);
    }
    if found {
        Some(out)
    } else {
        None
    }
}

} // verus!
